//! Changes to a relation as a Z-set: rows with signed weights.
//!
//! A `Delta` lists changes in the order in which they were made. What it means is the total
//! weight of each row, `weight`; two lists with the same weights are the same change.

use vstd::prelude::*;

use crate::row_index::{listed, RowIndex};
use crate::value::{data, HashableRow, RowView, Value};

verus! {

/// A list of rows with weights.
#[derive(Debug, PartialEq, Eq)]
pub struct Delta {
    pub changes: Vec<(HashableRow, isize)>,
}

/// What an entry of a delta holds.
pub type Change = (RowView, int);

/// What a list of changes holds.
pub open spec fn changes_view(changes: Seq<(HashableRow, isize)>) -> Seq<Change> {
    changes.map_values(|c: (HashableRow, isize)| (c.0@, c.1 as int))
}

impl View for Delta {
    type V = Seq<Change>;

    open spec fn view(&self) -> Seq<Change> {
        changes_view(self.changes@)
    }
}

/// The total weight of `row` in a list of changes.
pub open spec fn weight<K>(changes: Seq<(K, int)>, row: K) -> int
    decreases changes.len(),
{
    if changes.len() == 0 {
        0
    } else {
        weight(changes.drop_last(), row) + if changes.last().0 == row {
            changes.last().1
        } else {
            0
        }
    }
}

pub open spec fn abs(i: int) -> int {
    if i < 0 {
        -i
    } else {
        i
    }
}

/// The sum of the magnitudes of all weights. Every partial sum of weights lies within it.
pub open spec fn mass<K>(changes: Seq<(K, int)>) -> int
    decreases changes.len(),
{
    if changes.len() == 0 {
        0
    } else {
        mass(changes.drop_last()) + abs(changes.last().1)
    }
}

/// No row occurs twice.
pub open spec fn distinct<K>(changes: Seq<(K, int)>) -> bool {
    forall|i: int, j: int|
        0 <= i < changes.len() && 0 <= j < changes.len() && i != j ==> (#[trigger] changes[i]).0
            != (#[trigger] changes[j]).0
}

/// No weight is zero.
pub open spec fn nonzero<K>(changes: Seq<(K, int)>) -> bool {
    forall|i: int| 0 <= i < changes.len() ==> (#[trigger] changes[i]).1 != 0
}

/// A Z-set in normal form: every row at most once, and none with weight zero.
pub open spec fn normal<K>(changes: Seq<(K, int)>) -> bool {
    distinct(changes) && nonzero(changes)
}

/// Two lists of changes that give every row the same weight.
pub open spec fn equivalent<K>(a: Seq<(K, int)>, b: Seq<(K, int)>) -> bool {
    forall|row: K| #[trigger] weight(a, row) == weight(b, row)
}

/// The rows of a list of changes, each where it occurs first.
pub open spec fn rows_of<K>(changes: Seq<(K, int)>) -> Seq<K>
    decreases changes.len(),
{
    if changes.len() == 0 {
        Seq::empty()
    } else {
        let front = rows_of(changes.drop_last());
        if front.contains(changes.last().0) {
            front
        } else {
            front.push(changes.last().0)
        }
    }
}

/// Some rows with their total weights in a list of changes, those without weight left out.
pub open spec fn totals<K>(rows: Seq<K>, changes: Seq<(K, int)>) -> Seq<(K, int)>
    decreases rows.len(),
{
    if rows.len() == 0 {
        Seq::empty()
    } else {
        let front = totals(rows.drop_last(), changes);
        let w = weight(changes, rows.last());
        if w == 0 {
            front
        } else {
            front.push((rows.last(), w))
        }
    }
}

/// A list of changes added up: its rows in the order in which they occur first, each with its total
/// weight, those whose weights cancel left out.
pub open spec fn added_up<K>(changes: Seq<(K, int)>) -> Seq<(K, int)> {
    totals(rows_of(changes), changes)
}

pub proof fn lemma_weight_push<K>(changes: Seq<(K, int)>, c: (K, int), row: K)
    ensures
        weight(changes.push(c), row) == weight(changes, row) + (if c.0 == row {
            c.1
        } else {
            0
        }),
{
    assert(changes.push(c).drop_last() =~= changes);
}

pub proof fn lemma_mass_push<K>(changes: Seq<(K, int)>, c: (K, int))
    ensures
        mass(changes.push(c)) == mass(changes) + abs(c.1),
{
    assert(changes.push(c).drop_last() =~= changes);
}

pub proof fn lemma_mass_nonneg<K>(changes: Seq<(K, int)>)
    ensures
        mass(changes) >= 0,
    decreases changes.len(),
{
    if changes.len() > 0 {
        lemma_mass_nonneg(changes.drop_last());
    }
}

/// Concatenating two lists adds their weights.
pub proof fn lemma_weight_concat<K>(a: Seq<(K, int)>, b: Seq<(K, int)>, row: K)
    ensures
        weight(a + b, row) == weight(a, row) + weight(b, row),
    decreases b.len(),
{
    if b.len() == 0 {
        assert(a + b =~= a);
    } else {
        assert((a + b).drop_last() =~= a + b.drop_last());
        lemma_weight_concat(a, b.drop_last(), row);
    }
}

pub proof fn lemma_mass_concat<K>(a: Seq<(K, int)>, b: Seq<(K, int)>)
    ensures
        mass(a + b) == mass(a) + mass(b),
    decreases b.len(),
{
    if b.len() == 0 {
        assert(a + b =~= a);
    } else {
        assert((a + b).drop_last() =~= a + b.drop_last());
        lemma_mass_concat(a, b.drop_last());
    }
}

/// The weight of a row that does not occur is zero.
pub proof fn lemma_weight_absent<K>(changes: Seq<(K, int)>, row: K)
    requires
        forall|i: int| 0 <= i < changes.len() ==> (#[trigger] changes[i]).0 != row,
    ensures
        weight(changes, row) == 0,
    decreases changes.len(),
{
    if changes.len() > 0 {
        assert forall|i: int| 0 <= i < changes.drop_last().len() implies (
        #[trigger] changes.drop_last()[i]).0 != row by {
            assert(changes.drop_last()[i] == changes[i]);
        }
        lemma_weight_absent(changes.drop_last(), row);
        assert(changes[changes.len() - 1].0 != row);
    }
}

/// In a list without repetitions the weight of an entry's row is that entry's weight.
pub proof fn lemma_weight_distinct<K>(changes: Seq<(K, int)>, i: int)
    requires
        distinct(changes),
        0 <= i < changes.len(),
    ensures
        weight(changes, changes[i].0) == changes[i].1,
    decreases changes.len(),
{
    let front = changes.drop_last();
    let row = changes[i].0;
    if i == changes.len() - 1 {
        assert forall|j: int| 0 <= j < front.len() implies (#[trigger] front[j]).0 != row by {
            assert(front[j] == changes[j]);
        }
        lemma_weight_absent(front, row);
    } else {
        assert(distinct(front)) by {
            assert forall|a: int, b: int|
                0 <= a < front.len() && 0 <= b < front.len() && a != b implies (
            #[trigger] front[a]).0 != (#[trigger] front[b]).0 by {
                assert(front[a] == changes[a] && front[b] == changes[b]);
            }
        }
        lemma_weight_distinct(front, i);
        assert(front[i] == changes[i]);
        assert(changes[changes.len() - 1].0 != row);
    }
}

/// Adding `d` to one entry adds `d` to the weight of its row and nothing to the others.
pub proof fn lemma_weight_update<K>(changes: Seq<(K, int)>, i: int, d: int, row: K)
    requires
        0 <= i < changes.len(),
    ensures
        weight(changes.update(i, (changes[i].0, changes[i].1 + d)), row) == weight(changes, row)
            + (if changes[i].0 == row {
            d
        } else {
            0
        }),
    decreases changes.len(),
{
    let after = changes.update(i, (changes[i].0, changes[i].1 + d));
    if i == changes.len() - 1 {
        assert(after.drop_last() =~= changes.drop_last());
    } else {
        let front = changes.drop_last();
        lemma_weight_update(front, i, d, row);
        assert(front[i] == changes[i]);
        assert(after.drop_last() =~= front.update(i, (front[i].0, front[i].1 + d)));
        assert(after.last() == changes.last());
    }
}

pub proof fn lemma_mass_update<K>(changes: Seq<(K, int)>, i: int, d: int)
    requires
        0 <= i < changes.len(),
    ensures
        mass(changes.update(i, (changes[i].0, changes[i].1 + d))) <= mass(changes) + abs(d),
        abs(changes[i].1) <= mass(changes),
    decreases changes.len(),
{
    let after = changes.update(i, (changes[i].0, changes[i].1 + d));
    let front = changes.drop_last();
    if i == changes.len() - 1 {
        assert(after.drop_last() =~= front);
        lemma_mass_nonneg(front);
    } else {
        lemma_mass_update(front, i, d);
        assert(front[i] == changes[i]);
        assert(after.drop_last() =~= front.update(i, (front[i].0, front[i].1 + d)));
        assert(after.last() == changes.last());
    }
}

/// The mass of a prefix is no larger than that of the whole.
pub proof fn lemma_mass_prefix<K>(changes: Seq<(K, int)>, n: int)
    requires
        0 <= n <= changes.len(),
    ensures
        0 <= mass(changes.take(n)) <= mass(changes),
    decreases changes.len(),
{
    lemma_mass_nonneg(changes.take(n));
    if n < changes.len() {
        lemma_mass_prefix(changes.drop_last(), n);
        assert(changes.drop_last().take(n) =~= changes.take(n));
    } else {
        assert(changes.take(n) =~= changes);
    }
}

/// The weight of any row lies within the mass.
pub proof fn lemma_weight_within_mass<K>(changes: Seq<(K, int)>, row: K)
    ensures
        -mass(changes) <= weight(changes, row) <= mass(changes),
    decreases changes.len(),
{
    if changes.len() > 0 {
        lemma_weight_within_mass(changes.drop_last(), row);
    }
}

/// A normal form is determined up to order: two equivalent normal forms hold the same entries.
pub proof fn law_normal_forms_are_unique<K>(a: Seq<(K, int)>, b: Seq<(K, int)>, i: int)
    requires
        normal(a),
        normal(b),
        equivalent(a, b),
        0 <= i < a.len(),
    ensures
        b.contains(a[i]),
{
    lemma_weight_distinct(a, i);
    let row = a[i].0;
    assert(weight(a, row) == weight(b, row));
    if forall|j: int| 0 <= j < b.len() ==> (#[trigger] b[j]).0 != row {
        lemma_weight_absent(b, row);
        assert(a[i].1 != 0);
    } else {
        let j = choose|j: int| 0 <= j < b.len() && (#[trigger] b[j]).0 == row;
        lemma_weight_distinct(b, j);
        assert(b[j] == a[i]);
    }
}

proof fn lemma_rows_of<K>(changes: Seq<(K, int)>)
    ensures
        rows_of(changes).no_duplicates(),
        forall|i: int| 0 <= i < changes.len() ==> rows_of(changes).contains(
            (#[trigger] changes[i]).0,
        ),
    decreases changes.len(),
{
    if changes.len() > 0 {
        let front = changes.drop_last();
        lemma_rows_of(front);
        let rows = rows_of(changes);
        assert forall|i: int| 0 <= i < changes.len() implies rows.contains(
            (#[trigger] changes[i]).0,
        ) by {
            if i < front.len() {
                assert(front[i] == changes[i]);
                let j = choose|j: int| 0 <= j < rows_of(front).len() && rows_of(front)[j]
                    == changes[i].0;
                assert(rows[j] == changes[i].0);
            } else if !rows_of(front).contains(changes.last().0) {
                assert(rows[rows.len() - 1] == changes[i].0);
            }
        }
    }
}

proof fn lemma_totals<K>(rows: Seq<K>, changes: Seq<(K, int)>, row: K)
    requires
        rows.no_duplicates(),
    ensures
        normal(totals(rows, changes)),
        forall|i: int| 0 <= i < totals(rows, changes).len() ==> rows.contains(
            (#[trigger] totals(rows, changes)[i]).0,
        ),
        weight(totals(rows, changes), row) == (if rows.contains(row) {
            weight(changes, row)
        } else {
            0
        }),
    decreases rows.len(),
{
    if rows.len() > 0 {
        let front = rows.drop_last();
        let x = rows.last();
        lemma_totals(front, changes, row);
        let f = totals(front, changes);
        let t = totals(rows, changes);
        assert forall|i: int| 0 <= i < front.len() implies front[i] == rows[i] by {}
        assert(!front.contains(x)) by {
            assert forall|j: int| 0 <= j < front.len() implies front[j] != x by {
                assert(rows[j] != rows[rows.len() - 1]);
            }
        }
        assert forall|i: int| 0 <= i < t.len() implies rows.contains((#[trigger] t[i]).0) by {
            if i < f.len() {
                assert(t[i] == f[i]);
                let j = choose|j: int| 0 <= j < front.len() && front[j] == f[i].0;
                assert(rows[j] == t[i].0);
            } else {
                assert(rows[rows.len() - 1] == t[i].0);
            }
        }
        lemma_weight_push(f, (x, weight(changes, x)), row);
        assert(rows.contains(row) == (front.contains(row) || x == row)) by {
            if front.contains(row) {
                let j = choose|j: int| 0 <= j < front.len() && front[j] == row;
                assert(rows[j] == row);
            }
            if x == row {
                assert(rows[rows.len() - 1] == row);
            }
            if rows.contains(row) && x != row {
                let j = choose|j: int| 0 <= j < rows.len() && rows[j] == row;
                assert(front[j] == row);
            }
        }
        if weight(changes, x) != 0 {
            assert forall|a: int, b: int|
                0 <= a < t.len() && 0 <= b < t.len() && a != b implies (#[trigger] t[a]).0 != (
            #[trigger] t[b]).0 by {
                if a < f.len() {
                    assert(t[a] == f[a]);
                    assert(front.contains(f[a].0));
                }
                if b < f.len() {
                    assert(t[b] == f[b]);
                    assert(front.contains(f[b].0));
                }
            }
            assert forall|a: int| 0 <= a < t.len() implies (#[trigger] t[a]).1 != 0 by {
                if a < f.len() {
                    assert(t[a] == f[a]);
                }
            }
        }
    }
}

/// Adding up gives a normal form with the same weights.
pub proof fn lemma_added_up<K>(changes: Seq<(K, int)>)
    ensures
        normal(added_up(changes)),
        equivalent(added_up(changes), changes),
{
    lemma_rows_of(changes);
    assert forall|row: K| #[trigger] weight(added_up(changes), row) == weight(changes, row) by {
        lemma_totals(rows_of(changes), changes, row);
        if !rows_of(changes).contains(row) {
            lemma_weight_absent(changes, row);
        }
    }
    if changes.len() > 0 {
        lemma_totals(rows_of(changes), changes, changes[0].0);
    }
}

/// The total weight of the rows that satisfy a predicate.
pub open spec fn sum_where<K>(changes: Seq<(K, int)>, pred: spec_fn(K) -> bool) -> int
    decreases changes.len(),
{
    if changes.len() == 0 {
        0
    } else {
        sum_where(changes.drop_last(), pred) + if pred(changes.last().0) {
            changes.last().1
        } else {
            0
        }
    }
}

pub proof fn lemma_sum_where_push<K>(changes: Seq<(K, int)>, c: (K, int), pred: spec_fn(K) -> bool)
    ensures
        sum_where(changes.push(c), pred) == sum_where(changes, pred) + (if pred(c.0) {
            c.1
        } else {
            0
        }),
{
    assert(changes.push(c).drop_last() =~= changes);
}

pub proof fn lemma_sum_where_concat<K>(
    a: Seq<(K, int)>,
    b: Seq<(K, int)>,
    pred: spec_fn(K) -> bool,
)
    ensures
        sum_where(a + b, pred) == sum_where(a, pred) + sum_where(b, pred),
    decreases b.len(),
{
    if b.len() == 0 {
        assert(a + b =~= a);
    } else {
        assert((a + b).drop_last() =~= a + b.drop_last());
        lemma_sum_where_concat(a, b.drop_last(), pred);
    }
}

/// The list without the entries of one row.
spec fn without<K>(changes: Seq<(K, int)>, row: K) -> Seq<(K, int)>
    decreases changes.len(),
{
    if changes.len() == 0 {
        Seq::empty()
    } else if changes.last().0 == row {
        without(changes.drop_last(), row)
    } else {
        without(changes.drop_last(), row).push(changes.last())
    }
}

proof fn lemma_without<K>(changes: Seq<(K, int)>, row: K, other: K, pred: spec_fn(K) -> bool)
    ensures
        without(changes, row).len() <= changes.len(),
        weight(without(changes, row), other) == (if other == row {
            0
        } else {
            weight(changes, other)
        }),
        sum_where(changes, pred) == sum_where(without(changes, row), pred) + (if pred(row) {
            weight(changes, row)
        } else {
            0
        }),
    decreases changes.len(),
{
    if changes.len() > 0 {
        lemma_without(changes.drop_last(), row, other, pred);
        let rest = without(changes.drop_last(), row);
        if changes.last().0 != row {
            lemma_weight_push(rest, changes.last(), other);
            lemma_sum_where_push(rest, changes.last(), pred);
        }
    }
}

proof fn lemma_sum_where_zero<K>(changes: Seq<(K, int)>, pred: spec_fn(K) -> bool)
    requires
        forall|row: K| #[trigger] weight(changes, row) == 0,
    ensures
        sum_where(changes, pred) == 0,
    decreases changes.len(),
{
    if changes.len() > 0 {
        let row = changes.last().0;
        let rest = without(changes, row);
        assert forall|other: K| #[trigger] weight(rest, other) == 0 by {
            lemma_without(changes, row, other, pred);
            assert(weight(changes, other) == 0);
        }
        lemma_without(changes, row, row, pred);
        lemma_without(changes.drop_last(), row, row, pred);
        assert(weight(changes, row) == 0);
        lemma_sum_where_zero(rest, pred);
    }
}

/// The list with every weight negated.
spec fn negated<K>(changes: Seq<(K, int)>) -> Seq<(K, int)> {
    changes.map_values(|c: (K, int)| (c.0, -c.1))
}

proof fn lemma_negated<K>(changes: Seq<(K, int)>, row: K, pred: spec_fn(K) -> bool)
    ensures
        weight(negated(changes), row) == -weight(changes, row),
        sum_where(negated(changes), pred) == -sum_where(changes, pred),
    decreases changes.len(),
{
    if changes.len() > 0 {
        lemma_negated(changes.drop_last(), row, pred);
        assert(negated(changes).drop_last() =~= negated(changes.drop_last()));
        assert(negated(changes).last() == (changes.last().0, -changes.last().1));
    }
}

/// What a Z-set sums to over a predicate depends on the weights alone.
pub proof fn law_sums_depend_on_weights_alone<K>(
    a: Seq<(K, int)>,
    b: Seq<(K, int)>,
    pred: spec_fn(K) -> bool,
)
    requires
        equivalent(a, b),
    ensures
        sum_where(a, pred) == sum_where(b, pred),
{
    let d = a + negated(b);
    assert forall|row: K| #[trigger] weight(d, row) == 0 by {
        lemma_weight_concat(a, negated(b), row);
        lemma_negated(b, row, pred);
        assert(weight(a, row) == weight(b, row));
    }
    lemma_sum_where_zero(d, pred);
    lemma_sum_where_concat(a, negated(b), pred);
    if a.len() > 0 {
        lemma_negated(b, a[0].0, pred);
    } else if b.len() > 0 {
        lemma_negated(b, b[0].0, pred);
    } else {
        assert(negated(b) =~= b);
    }
}

proof fn lemma_sum_of_positives<K>(changes: Seq<(K, int)>, pred: spec_fn(K) -> bool)
    requires
        forall|i: int| 0 <= i < changes.len() ==> (#[trigger] changes[i]).1 > 0,
    ensures
        sum_where(changes, pred) >= 0,
        sum_where(changes, pred) != 0 <==> exists|i: int|
            0 <= i < changes.len() && pred((#[trigger] changes[i]).0),
    decreases changes.len(),
{
    if changes.len() > 0 {
        let front = changes.drop_last();
        assert forall|i: int| 0 <= i < front.len() implies (#[trigger] front[i]).1 > 0 by {
            assert(front[i] == changes[i]);
        }
        lemma_sum_of_positives(front, pred);
        assert(changes[changes.len() - 1].1 > 0);
        if sum_where(changes, pred) != 0 {
            if pred(changes.last().0) {
                assert(pred(changes[changes.len() - 1].0));
            } else {
                let i = choose|i: int| 0 <= i < front.len() && pred((#[trigger] front[i]).0);
                assert(pred(changes[i].0));
            }
        } else if exists|i: int| 0 <= i < changes.len() && pred((#[trigger] changes[i]).0) {
            let i = choose|i: int| 0 <= i < changes.len() && pred((#[trigger] changes[i]).0);
            if i < front.len() {
                assert(pred(front[i].0));
            }
        }
    }
}

/// Where no row has a negative weight, the rows with a property weigh something exactly if one of
/// them does.
pub proof fn lemma_sums_of_positive_weights<K>(changes: Seq<(K, int)>, pred: spec_fn(K) -> bool)
    requires
        forall|row: K| #[trigger] weight(changes, row) >= 0,
    ensures
        sum_where(changes, pred) >= 0,
        sum_where(changes, pred) != 0 <==> exists|row: K|
            #[trigger] weight(changes, row) != 0 && pred(row),
{
    let summed = added_up(changes);
    lemma_added_up(changes);
    law_sums_depend_on_weights_alone(summed, changes, pred);
    assert forall|i: int| 0 <= i < summed.len() implies (#[trigger] summed[i]).1 > 0 by {
        lemma_weight_distinct(summed, i);
        assert(weight(summed, summed[i].0) == weight(changes, summed[i].0));
    }
    lemma_sum_of_positives(summed, pred);
    if sum_where(changes, pred) != 0 {
        let i = choose|i: int| 0 <= i < summed.len() && pred((#[trigger] summed[i]).0);
        lemma_weight_distinct(summed, i);
        assert(weight(summed, summed[i].0) == weight(changes, summed[i].0));
        assert(weight(changes, summed[i].0) != 0 && pred(summed[i].0));
    } else if exists|row: K| #[trigger] weight(changes, row) != 0 && pred(row) {
        let row = choose|row: K| #[trigger] weight(changes, row) != 0 && pred(row);
        assert(weight(summed, row) == weight(changes, row));
        if forall|i: int| 0 <= i < summed.len() ==> (#[trigger] summed[i]).0 != row {
            lemma_weight_absent(summed, row);
        } else {
            let i = choose|i: int| 0 <= i < summed.len() && (#[trigger] summed[i]).0 == row;
            assert(pred(summed[i].0));
        }
    }
}

impl Clone for Delta {
    fn clone(&self) -> (r: Self)
        ensures
            r@ == self@,
    {
        let mut out: Vec<(HashableRow, isize)> = Vec::new();
        let mut i: usize = 0;
        while i < self.changes.len()
            invariant
                i <= self.changes.len(),
                out@.len() == i,
                forall|j: int|
                    0 <= j < i ==> (#[trigger] out@[j]).0@ == self.changes@[j].0@ && out@[j].1
                        == self.changes@[j].1,
            decreases self.changes.len() - i,
        {
            out.push((self.changes[i].0.clone(), self.changes[i].1));
            i += 1;
        }
        assert(changes_view(out@) =~= self@);
        Delta { changes: out }
    }
}

impl Default for Delta {
    fn default() -> (r: Self)
        ensures
            r@ == Seq::<Change>::empty(),
    {
        Delta::new()
    }
}

/// What a list of changes holds entries for.
spec fn keys_of<K>(changes: Seq<(K, int)>) -> Seq<K> {
    changes.map_values(|c: (K, int)| c.0)
}

impl Delta {
    /// No change.
    pub fn new() -> (r: Self)
        ensures
            r@ == Seq::<Change>::empty(),
    {
        let r = Delta { changes: Vec::new() };
        assert(r@ =~= Seq::<Change>::empty());
        r
    }

    /// Records one insertion of a row.
    pub fn insert(&mut self, rowid: i64, values: Vec<Value>)
        ensures
            final(self)@ == old(self)@.push((RowView { rowid, values: data(values@) }, 1)),
    {
        self.push(HashableRow::new(rowid, values), 1);
    }

    /// Records one deletion of a row.
    pub fn delete(&mut self, rowid: i64, values: Vec<Value>)
        ensures
            final(self)@ == old(self)@.push((RowView { rowid, values: data(values@) }, -1)),
    {
        self.push(HashableRow::new(rowid, values), -1);
    }

    /// Records a row with a weight.
    pub fn push(&mut self, row: HashableRow, weight: isize)
        ensures
            final(self)@ == old(self)@.push((row@, weight as int)),
    {
        let ghost before = self@;
        let ghost view = (row@, weight as int);
        self.changes.push((row, weight));
        assert(self@ =~= before.push(view));
    }

    pub fn is_empty(&self) -> (r: bool)
        ensures
            r == (self@.len() == 0),
    {
        self.changes.len() == 0
    }

    pub fn len(&self) -> (r: usize)
        ensures
            r == self@.len(),
    {
        self.changes.len()
    }

    /// Appends the changes of another delta.
    pub fn merge(&mut self, other: &Delta)
        ensures
            final(self)@ == old(self)@ + other@,
    {
        let ghost before = self@;
        let mut i: usize = 0;
        while i < other.changes.len()
            invariant
                i <= other.changes.len(),
                self@ == before + other@.take(i as int),
            decreases other.changes.len() - i,
        {
            self.push(other.changes[i].0.clone(), other.changes[i].1);
            i += 1;
            assert(self@ =~= before + other@.take(i as int));
        }
        assert(other@.take(i as int) =~= other@);
        assert(self@ =~= before + other@);
    }

    /// Adds up the weights of equal rows and drops the rows whose weights cancel.
    pub fn consolidate(&mut self)
        requires
            mass(old(self)@) <= isize::MAX,
        ensures
            final(self)@ == added_up(old(self)@),
            normal(final(self)@),
            equivalent(final(self)@, old(self)@),
            mass(final(self)@) <= mass(old(self)@),
    {
        let ghost all = self@;
        let mut sums: Vec<(HashableRow, isize)> = Vec::new();
        let mut index = RowIndex::new();
        assert(listed(sums@) =~= Seq::<RowView>::empty());
        let mut i: usize = 0;
        assert(all.take(0) =~= Seq::<Change>::empty());
        assert(changes_view(sums@) =~= Seq::<Change>::empty());
        assert(keys_of(changes_view(sums@)) =~= Seq::<RowView>::empty());
        while i < self.changes.len()
            invariant
                i <= self.changes.len(),
                self@ == all,
                mass(all) <= isize::MAX,
                distinct(changes_view(sums@)),
                equivalent(changes_view(sums@), all.take(i as int)),
                mass(changes_view(sums@)) <= mass(all.take(i as int)),
                keys_of(changes_view(sums@)) == rows_of(all.take(i as int)),
                index.covers(listed(sums@)),
            decreases self.changes.len() - i,
        {
            let ghost before = changes_view(sums@);
            let d: isize = self.changes[i].1;
            let ghost entry = all[i as int];
            proof {
                assert(entry == (self.changes@[i as int].0@, d as int));
                assert(all.take(i + 1) =~= all.take(i as int).push(entry));
                assert(all.take(i + 1).drop_last() =~= all.take(i as int));
                lemma_mass_push(all.take(i as int), entry);
                lemma_mass_prefix(all, i + 1);
            }
            let ghost rows = listed(sums@);
            match index.find(&sums, &self.changes[i].0) {
                Some(at) => {
                    let w: isize = sums[at].1;
                    proof {
                        assert(before[at as int] == (entry.0, w as int));
                        lemma_mass_update(before, at as int, d as int);
                    }
                    let row = sums[at].0.clone();
                    sums.set(at, (row, w + d));
                    assert(listed(sums@) =~= rows);
                    assert(changes_view(sums@) =~= before.update(
                        at as int,
                        (before[at as int].0, before[at as int].1 + d),
                    ));
                    assert(keys_of(changes_view(sums@)) =~= keys_of(before));
                    assert(keys_of(before)[at as int] == entry.0);
                    proof {
                        assert forall|row: RowView|
                            #[trigger] weight(changes_view(sums@), row) == weight(
                                all.take(i + 1),
                                row,
                            ) by {
                            lemma_weight_update(before, at as int, d as int, row);
                            lemma_weight_push(all.take(i as int), entry, row);
                            assert(weight(before, row) == weight(all.take(i as int), row));
                        }
                        let after = changes_view(sums@);
                        assert forall|a: int, b: int|
                            0 <= a < after.len() && 0 <= b < after.len() && a != b implies (
                        #[trigger] after[a]).0 != (#[trigger] after[b]).0 by {
                            assert(after[a].0 == before[a].0 && after[b].0 == before[b].0);
                        }
                    }
                },
                None => {
                    let ghost old_sums = sums@;
                    sums.push((self.changes[i].0.clone(), d));
                    index.note(&self.changes[i].0);
                    assert(listed(sums@) =~= rows.push(entry.0));
                    assert(changes_view(sums@) =~= before.push(entry));
                    assert(keys_of(changes_view(sums@)) =~= keys_of(before).push(entry.0));
                    assert(!keys_of(before).contains(entry.0)) by {
                        assert forall|j: int| 0 <= j < keys_of(before).len() implies keys_of(
                            before,
                        )[j] != entry.0 by {
                            assert(old_sums[j].0@ == before[j].0);
                        }
                    }
                    proof {
                        lemma_mass_push(before, entry);
                        assert forall|row: RowView|
                            #[trigger] weight(changes_view(sums@), row) == weight(
                                all.take(i + 1),
                                row,
                            ) by {
                            lemma_weight_push(before, entry, row);
                            lemma_weight_push(all.take(i as int), entry, row);
                            assert(weight(before, row) == weight(all.take(i as int), row));
                        }
                        let after = changes_view(sums@);
                        assert forall|a: int, b: int|
                            0 <= a < after.len() && 0 <= b < after.len() && a != b implies (
                        #[trigger] after[a]).0 != (#[trigger] after[b]).0 by {
                            if a < before.len() {
                                assert(after[a] == before[a]);
                                assert(before[a].0 == old_sums[a].0@);
                            }
                            if b < before.len() {
                                assert(after[b] == before[b]);
                                assert(before[b].0 == old_sums[b].0@);
                            }
                        }
                    }
                },
            }
            i += 1;
        }
        assert(all.take(i as int) =~= all);
        let ghost summed = changes_view(sums@);
        let mut kept: Vec<(HashableRow, isize)> = Vec::new();
        let mut k: usize = 0;
        assert(summed.take(0) =~= Seq::<Change>::empty());
        assert(changes_view(kept@) =~= Seq::<Change>::empty());
        assert(keys_of(summed).take(0) =~= Seq::<RowView>::empty());
        while k < sums.len()
            invariant
                k <= sums.len(),
                summed == changes_view(sums@),
                distinct(summed),
                equivalent(summed, all),
                changes_view(kept@) == totals(keys_of(summed).take(k as int), all),
                normal(changes_view(kept@)),
                equivalent(changes_view(kept@), summed.take(k as int)),
                mass(changes_view(kept@)) <= mass(summed.take(k as int)),
                forall|j: int|
                    0 <= j < kept@.len() ==> exists|m: int|
                        0 <= m < k && summed[m].0 == (#[trigger] kept@[j]).0@,
            decreases sums.len() - k,
        {
            let ghost before = changes_view(kept@);
            let ghost old_kept = kept@;
            let ghost entry = summed[k as int];
            proof {
                assert(entry == (sums@[k as int].0@, sums@[k as int].1 as int));
                assert(summed.take(k + 1) =~= summed.take(k as int).push(entry));
                lemma_mass_push(summed.take(k as int), entry);
                assert(keys_of(summed).take(k + 1).drop_last() =~= keys_of(summed).take(k as int));
                assert(keys_of(summed).take(k + 1).last() == entry.0);
                lemma_weight_distinct(summed, k as int);
                assert(weight(summed, entry.0) == weight(all, entry.0));
            }
            if sums[k].1 != 0 {
                kept.push((sums[k].0.clone(), sums[k].1));
                assert(changes_view(kept@) =~= before.push(entry));
                proof {
                    lemma_mass_push(before, entry);
                    let after = changes_view(kept@);
                    assert forall|a: int, b: int|
                        0 <= a < after.len() && 0 <= b < after.len() && a != b implies (
                    #[trigger] after[a]).0 != (#[trigger] after[b]).0 by {
                        if a < before.len() {
                            assert(after[a] == before[a]);
                            assert(before[a].0 == old_kept[a].0@);
                        }
                        if b < before.len() {
                            assert(after[b] == before[b]);
                            assert(before[b].0 == old_kept[b].0@);
                        }
                    }
                    assert forall|a: int| 0 <= a < after.len() implies (#[trigger] after[a]).1
                        != 0 by {
                        if a < before.len() {
                            assert(after[a] == before[a]);
                        }
                    }
                    assert forall|j: int| 0 <= j < kept@.len() implies exists|m: int|
                        0 <= m < k + 1 && summed[m].0 == (#[trigger] kept@[j]).0@ by {
                        if j < old_kept.len() {
                            assert(kept@[j] == old_kept[j]);
                            let m = choose|m: int| 0 <= m < k && summed[m].0 == old_kept[j].0@;
                            assert(summed[m].0 == kept@[j].0@);
                        } else {
                            assert(summed[k as int].0 == kept@[j].0@);
                        }
                    }
                }
            }
            proof {
                assert forall|row: RowView|
                    #[trigger] weight(changes_view(kept@), row) == weight(
                        summed.take(k + 1),
                        row,
                    ) by {
                    lemma_weight_push(before, entry, row);
                    lemma_weight_push(summed.take(k as int), entry, row);
                    assert(weight(before, row) == weight(summed.take(k as int), row));
                }
            }
            k += 1;
        }
        assert(summed.take(k as int) =~= summed);
        assert(keys_of(summed).take(k as int) =~= keys_of(summed));
        self.changes = kept;
        proof {
            assert forall|row: RowView| #[trigger] weight(self@, row) == weight(all, row) by {
                assert(weight(self@, row) == weight(summed, row));
            }
        }
    }
}

/// The changes on the two sides of a binary operator.
#[derive(Debug, PartialEq, Eq)]
pub struct DeltaPair {
    pub left: Delta,
    pub right: Delta,
}

impl DeltaPair {
    pub fn new(left: Delta, right: Delta) -> (r: Self)
        ensures
            r.left == left,
            r.right == right,
    {
        DeltaPair { left, right }
    }
}

impl Clone for DeltaPair {
    fn clone(&self) -> (r: Self)
        ensures
            r.left@ == self.left@,
            r.right@ == self.right@,
    {
        DeltaPair { left: self.left.clone(), right: self.right.clone() }
    }
}

} // verus!
