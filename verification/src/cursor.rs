//! Reading a view inside a transaction.
//!
//! What a view has stored is merged with the changes that the transaction has made and not yet
//! committed. Storage is reached through the caller: the cursor says what to do next and is told
//! what came of it.

use vstd::prelude::*;

use crate::error::{parse_error, ErrorView, LimboError};
use crate::order::{MatviewOrderBy, SortColumn};
use crate::overlay::{lemma_nearest, nearest, sought, with_id, RowKeyZSet, SeekOp};
use crate::seqs::occurrences;
use crate::snapshot::{materialize_index_snapshot, merged, row_list, rows_in_order};
use crate::value::{copy_values, data, Datum, HashableRow, RowView, Value};
use crate::write_row::SeekResult;
use crate::zset::{
    added_up, equivalent, lemma_weight_absent, lemma_weight_concat, lemma_weight_distinct, mass, normal,
    weight, Change, Delta,
};

verus! {

// Looking for a row.

/// Where a search stands.
#[derive(Debug, PartialEq, Eq, Clone, Copy, Structural)]
pub enum SeekState {
    Init,
    /// Looking for `target`, which moves on; what was asked for stays.
    Seek { target: i64, original_target_rowid: i64 },
    /// Storage was left between two leaves and is being moved on.
    Advancing { target: i64, original_target_rowid: i64, op: SeekOp },
    Done,
}

/// What is to be done with storage.
#[derive(Debug, PartialEq, Eq, Clone, Copy, Structural)]
pub enum StorageAction {
    Seek { target: i64, op: SeekOp },
    Rewind,
    Next,
    Prev,
    /// Read the entry where storage stands, if it stands at one.
    Read,
}

/// What has been done with storage.
#[derive(Debug)]
pub enum StorageEvent {
    /// Nothing yet: asks again for what is to be done.
    Resume,
    Sought(SeekResult),
    /// It was rewound or moved on.
    Moved,
    /// The entry that was read, none where storage stands at none.
    Entry(Option<(HashableRow, isize)>),
}

/// The entry of an event, as changes.
pub open spec fn entry_changes(entry: Option<(HashableRow, isize)>) -> Seq<Change> {
    match entry {
        Some(e) => seq![(e.0@, e.1 as int)],
        None => Seq::empty(),
    }
}

/// Whether a row is the first that is there and may be found.
pub open spec fn is_found(changes: Seq<Change>, target: i64, op: SeekOp, row: RowView) -> bool {
    &&& weight(changes, row) != 0
    &&& op.admits(row.rowid, target)
    &&& forall|other: RowView| #[trigger]
        weight(changes, other) != 0 && op.admits(other.rowid, target) ==> !op.nearer(
            other.rowid,
            row.rowid,
        )
}

/// Whether no row that is there may be found.
pub open spec fn none_found(changes: Seq<Change>, target: i64, op: SeekOp) -> bool {
    forall|row: RowView| #[trigger] weight(changes, row) != 0 ==> !op.admits(row.rowid, target)
}

/// The row id to look for next once all changes seen have cancelled.
pub open spec fn next_target(changes: Seq<Change>, op: SeekOp) -> Option<int> {
    match op {
        SeekOp::GT => Some(changes.last().0.rowid as int),
        SeekOp::GE { eq_only: false } => Some(changes.last().0.rowid + 1),
        SeekOp::LT => Some(changes.first().0.rowid as int),
        SeekOp::LE { eq_only: false } => Some(changes.first().0.rowid - 1),
        _ => None,
    }
}

/// Whether there is a row id to look for next.
pub open spec fn target_fits(changes: Seq<Change>, op: SeekOp) -> bool {
    changes.len() > 0 ==> (next_target(changes, op) matches Some(t) ==> i64::MIN <= t
        <= i64::MAX)
}

/// Whether the weights that a round sees can be added up, and where all has cancelled there is a row
/// id to look for next.
pub open spec fn sight_fits(changes: Seq<Change>, original: i64, op: SeekOp) -> bool {
    &&& mass(changes) <= isize::MAX
    &&& none_found(changes, original, op) ==> target_fits(changes, op)
}

/// What one round of a search sees: the entry of storage and the uncommitted changes to the row id
/// that is found first among them.
pub open spec fn seen(
    uncommitted: Seq<Change>,
    target: i64,
    op: SeekOp,
    entry: Seq<Change>,
) -> Seq<Change> {
    entry + sought(uncommitted, target, op)
}

/// What a round of a search comes to.
#[derive(Debug)]
pub enum Round {
    Found(HashableRow),
    NotFound,
    GoOn { target: i64 },
}

/// Looks at what storage and the uncommitted changes hold for a target.
pub fn process_btree_changes(
    uncommitted: &RowKeyZSet,
    target: i64,
    target_rowid: i64,
    op: SeekOp,
    entry: Option<(HashableRow, isize)>,
) -> (r: Round)
    requires
        sight_fits(seen(uncommitted@, target, op, entry_changes(entry)), target_rowid, op),
    ensures
        ({
            let all = seen(uncommitted@, target, op, entry_changes(entry));
            match r {
                Round::Found(row) => is_found(all, target_rowid, op, row@),
                Round::NotFound => none_found(all, target_rowid, op) && (all.len() == 0
                    || next_target(all, op) is None),
                Round::GoOn { target: t } => none_found(all, target_rowid, op) && all.len() > 0
                    && next_target(all, op) == Some(t as int),
            }
        }),
{
    let ghost all = seen(uncommitted@, target, op, entry_changes(entry));
    let mut entries = Delta::new();
    if let Some(e) = entry {
        entries.push(e.0, e.1);
    }
    assert(entries@ =~= entry_changes(entry));
    let changes = uncommitted.seek(target, op);
    entries.merge(&changes);
    assert(entries@ == all);
    if entries.is_empty() {
        return Round::NotFound;
    }
    let min_seen: i64 = entries.changes[0].0.rowid;
    let max_seen: i64 = entries.changes[entries.changes.len() - 1].0.rowid;
    proof {
        assert(all.first().0.rowid == min_seen);
        assert(all.last().0.rowid == max_seen);
    }
    let zset = RowKeyZSet::from_delta(&entries);
    let found = zset.seek(target_rowid, op);
    proof {
        lemma_found(zset@, all, target_rowid, op);
    }
    if !found.is_empty() {
        let ghost row = found@[0].0;
        assert(found.changes@[0].0@ == row);
        return Round::Found(found.changes[0].0.clone());
    }
    match op {
        SeekOp::GT => Round::GoOn { target: max_seen },
        SeekOp::GE { eq_only: false } => Round::GoOn { target: max_seen + 1 },
        SeekOp::LT => Round::GoOn { target: min_seen },
        SeekOp::LE { eq_only: false } => Round::GoOn { target: min_seen - 1 },
        _ => Round::NotFound,
    }
}

/// Looking changes up once they are added up finds the first row that is there.
proof fn lemma_found(sum: Seq<Change>, all: Seq<Change>, target: i64, op: SeekOp)
    requires
        normal(sum),
        equivalent(sum, all),
    ensures
        ({
            let found = sought(sum, target, op);
            if found.len() > 0 {
                is_found(all, target, op, found[0].0)
            } else {
                none_found(all, target, op)
            }
        }),
{
    lemma_nearest(sum, target, op);
    match nearest(sum, target, op) {
        Some(id) => {
            let f = with_id(id);
            let found = sum.filter(f);
            let i = choose|i: int| 0 <= i < sum.len() && (#[trigger] sum[i]).0.rowid == id;
            sum.filter_lemma(f);
            assert(found.contains(sum[i]));
            lemma_filter_from(sum, f, 0);
            let k = choose|k: int| 0 <= k < sum.len() && sum[k] == found[0];
            lemma_weight_distinct(sum, k);
            let row = found[0].0;
            assert(f(found[0]));
            assert(weight(all, row) == weight(sum, row));
            assert forall|other: RowView| #[trigger]
                weight(all, other) != 0 && op.admits(other.rowid, target) implies !op.nearer(
                other.rowid,
                row.rowid,
            ) by {
                assert(weight(sum, other) == weight(all, other));
                lemma_occurs(sum, other);
                let j = choose|j: int| 0 <= j < sum.len() && (#[trigger] sum[j]).0 == other;
                assert(op.admits(sum[j].0.rowid, target));
            }
        },
        None => {
            assert forall|row: RowView| #[trigger] weight(all, row) != 0 implies !op.admits(
                row.rowid,
                target,
            ) by {
                assert(weight(sum, row) == weight(all, row));
                lemma_occurs(sum, row);
                let j = choose|j: int| 0 <= j < sum.len() && (#[trigger] sum[j]).0 == row;
                assert(!op.admits(sum[j].0.rowid, target));
            }
        },
    }
}

/// A row with a weight occurs.
proof fn lemma_occurs(changes: Seq<Change>, row: RowView)
    requires
        weight(changes, row) != 0,
    ensures
        exists|i: int| 0 <= i < changes.len() && (#[trigger] changes[i]).0 == row,
{
    if forall|i: int| 0 <= i < changes.len() ==> (#[trigger] changes[i]).0 != row {
        lemma_weight_absent(changes, row);
    }
}

/// What a filter keeps was there.
proof fn lemma_filter_from(s: Seq<Change>, f: spec_fn(Change) -> bool, i: int)
    requires
        0 <= i < s.filter(f).len(),
    ensures
        exists|k: int| 0 <= k < s.len() && s[k] == s.filter(f)[i],
        f(s.filter(f)[i]),
    decreases s.len(),
{
    reveal(Seq::filter);
    if s.len() > 0 {
        let front = s.drop_last();
        if i < front.filter(f).len() {
            lemma_filter_from(front, f, i);
            let k = choose|k: int| 0 <= k < front.len() && front[k] == front.filter(f)[i];
            assert(s[k] == s.filter(f)[i]);
        } else {
            assert(s[s.len() - 1] == s.filter(f)[i]);
        }
    }
}

// Why a search is exact.

/// What storage holds: rows by row id, with their weights.
pub type Stored = Map<i64, (Seq<Datum>, int)>;

/// The weight of a row in storage.
pub open spec fn stored_of(stored: Stored, row: RowView) -> int {
    if stored.dom().contains(row.rowid) && stored[row.rowid].0 == row.values {
        stored[row.rowid].1
    } else {
        0
    }
}

/// The weight of a row in the view as the transaction sees it.
pub open spec fn present(stored: Stored, uncommitted: Seq<Change>, row: RowView) -> int {
    stored_of(stored, row) + weight(uncommitted, row)
}

/// Whether storage answers a search with the row that it holds first.
pub open spec fn is_entry(stored: Stored, target: i64, op: SeekOp, entry: Seq<Change>) -> bool {
    if entry.len() == 0 {
        forall|id: i64| #[trigger] stored.dom().contains(id) ==> !op.admits(id, target)
    } else {
        let row = entry[0].0;
        &&& entry.len() == 1
        &&& stored.dom().contains(row.rowid)
        &&& stored[row.rowid] == (row.values, entry[0].1)
        &&& op.admits(row.rowid, target)
        &&& forall|id: i64| #[trigger]
            stored.dom().contains(id) && op.admits(id, target) ==> !op.nearer(id, row.rowid)
    }
}

/// Whether nothing that may be found for `original` lies before `target`.
pub open spec fn passed(
    stored: Stored,
    uncommitted: Seq<Change>,
    original: i64,
    target: int,
    op: SeekOp,
) -> bool {
    forall|row: RowView| #[trigger]
        present(stored, uncommitted, row) != 0 && op.admits(row.rowid, original) ==> target
            <= i64::MAX && target >= i64::MIN && op.admits(row.rowid, target as i64)
}

/// Whether a row is the first in the view as the transaction sees it.
pub open spec fn is_first(
    stored: Stored,
    uncommitted: Seq<Change>,
    original: i64,
    op: SeekOp,
    row: RowView,
) -> bool {
    &&& present(stored, uncommitted, row) != 0
    &&& op.admits(row.rowid, original)
    &&& forall|other: RowView| #[trigger]
        present(stored, uncommitted, other) != 0 && op.admits(other.rowid, original)
            ==> !op.nearer(other.rowid, row.rowid)
}

proof fn lemma_one_weight(e: Change, row: RowView)
    ensures
        weight(seq![e], row) == (if e.0 == row {
            e.1
        } else {
            0
        }),
{
    let one = seq![e];
    assert(one.drop_last() =~= Seq::<Change>::empty());
    reveal_with_fuel(weight, 2);
}

/// The weight of a row among the changes to one row id.
proof fn lemma_weight_with_id(changes: Seq<Change>, id: i64, row: RowView)
    ensures
        weight(changes.filter(with_id(id)), row) == (if row.rowid == id {
            weight(changes, row)
        } else {
            0
        }),
    decreases changes.len(),
{
    reveal(Seq::filter);
    let f = with_id(id);
    if changes.len() > 0 {
        let front = changes.drop_last();
        lemma_weight_with_id(front, id, row);
        if f(changes.last()) {
            assert(changes.filter(f).drop_last() =~= front.filter(f));
        }
    }
}

/// What a round sees of a row id before which nothing is: all that the view holds of it.
proof fn lemma_round_weight(
    stored: Stored,
    uncommitted: Seq<Change>,
    target: i64,
    op: SeekOp,
    entry: Seq<Change>,
    row: RowView,
)
    requires
        is_entry(stored, target, op, entry),
        op.admits(row.rowid, target),
        entry.len() > 0 ==> !op.nearer(entry[0].0.rowid, row.rowid),
        nearest(uncommitted, target, op) matches Some(u) ==> !op.nearer(u, row.rowid),
    ensures
        weight(seen(uncommitted, target, op, entry), row) == present(stored, uncommitted, row),
{
    lemma_weight_concat(entry, sought(uncommitted, target, op), row);
    lemma_nearest(uncommitted, target, op);
    // Storage.
    if entry.len() > 0 {
        assert(entry =~= seq![entry[0]]);
        lemma_one_weight(entry[0], row);
        if entry[0].0.rowid != row.rowid {
            if stored.dom().contains(row.rowid) {
                assert(!op.nearer(row.rowid, entry[0].0.rowid));
            }
        } else if entry[0].0.values == row.values {
            assert(entry[0].0 =~= row);
        }
    } else {
        assert(entry =~= Seq::<Change>::empty());
    }
    // The uncommitted changes.
    match nearest(uncommitted, target, op) {
        Some(u) => {
            lemma_weight_with_id(uncommitted, u, row);
            if u != row.rowid {
                if weight(uncommitted, row) != 0 {
                    lemma_occurs(uncommitted, row);
                    let j = choose|j: int|
                        0 <= j < uncommitted.len() && (#[trigger] uncommitted[j]).0 == row;
                    assert(!op.nearer(uncommitted[j].0.rowid, u));
                }
            }
        },
        None => {
            if weight(uncommitted, row) != 0 {
                lemma_occurs(uncommitted, row);
                let j = choose|j: int|
                    0 <= j < uncommitted.len() && (#[trigger] uncommitted[j]).0 == row;
                assert(!op.admits(uncommitted[j].0.rowid, target));
            }
        },
    }
}

/// A row that the view holds is in storage or among the uncommitted changes, and so no nearer than
/// what a round sees of either.
proof fn lemma_no_nearer(
    stored: Stored,
    uncommitted: Seq<Change>,
    target: i64,
    op: SeekOp,
    entry: Seq<Change>,
    row: RowView,
)
    requires
        is_entry(stored, target, op, entry),
        present(stored, uncommitted, row) != 0,
        op.admits(row.rowid, target),
    ensures
        (entry.len() > 0 && !op.nearer(row.rowid, entry[0].0.rowid)) || (nearest(
            uncommitted,
            target,
            op,
        ) matches Some(u) && !op.nearer(row.rowid, u)),
{
    lemma_nearest(uncommitted, target, op);
    if weight(uncommitted, row) != 0 {
        lemma_occurs(uncommitted, row);
        let j = choose|j: int| 0 <= j < uncommitted.len() && (#[trigger] uncommitted[j]).0 == row;
        assert(op.admits(uncommitted[j].0.rowid, target));
    } else {
        assert(stored.dom().contains(row.rowid));
    }
}

/// A round of a search is exact: where a row is found, it is the first that the view holds as the
/// transaction sees it; where the search ends, the view holds none; and where it goes on, nothing
/// has been passed over.
pub proof fn law_searches_are_exact(
    stored: Stored,
    uncommitted: Seq<Change>,
    original: i64,
    target: i64,
    op: SeekOp,
    entry: Seq<Change>,
    row: RowView,
)
    requires
        normal(uncommitted),
        forall|id: i64| #[trigger] stored.dom().contains(id) ==> stored[id].1 > 0,
        is_entry(stored, target, op, entry),
        passed(stored, uncommitted, original, target as int, op),
        op.admits(target, original) || target == original,
    ensures
        is_found(seen(uncommitted, target, op, entry), original, op, row) ==> is_first(
            stored,
            uncommitted,
            original,
            op,
            row,
        ),
        none_found(seen(uncommitted, target, op, entry), original, op) && (seen(
            uncommitted,
            target,
            op,
            entry,
        ).len() == 0 || next_target(seen(uncommitted, target, op, entry), op) is None)
            ==> present(stored, uncommitted, row) != 0 ==> !op.admits(row.rowid, original),
        none_found(seen(uncommitted, target, op, entry), original, op) && seen(
            uncommitted,
            target,
            op,
            entry,
        ).len() > 0 ==> (next_target(seen(uncommitted, target, op, entry), op) matches Some(t)
            ==> passed(stored, uncommitted, original, t, op)),
{
    let all = seen(uncommitted, target, op, entry);
    let u = nearest(uncommitted, target, op);
    lemma_nearest(uncommitted, target, op);
    let rest = sought(uncommitted, target, op);
    if is_found(all, original, op, row) {
        lemma_found_is_first(stored, uncommitted, original, target, op, entry, row);
    }
    if none_found(all, original, op) {
        lemma_all_cancelled(stored, uncommitted, original, target, op, entry);
        if all.len() == 0 {
            assert(entry.len() == 0);
            assert(u is None) by {
                if u is Some {
                    let i = choose|i: int|
                        0 <= i < uncommitted.len() && (#[trigger] uncommitted[i]).0.rowid
                            == u->Some_0;
                    uncommitted.filter_lemma(with_id(u->Some_0));
                    assert(rest.contains(uncommitted[i]));
                }
            }
            if present(stored, uncommitted, row) != 0 && op.admits(row.rowid, original) {
                lemma_no_nearer(stored, uncommitted, target, op, entry, row);
            }
        } else {
            assert(entry.len() == 1 && u == Some(entry[0].0.rowid));
            let id = entry[0].0.rowid;
            assert(all.first().0.rowid == id);
            assert(all.last().0.rowid == id) by {
                let last = all.len() - 1;
                if rest.len() > 0 {
                    assert(all[last] == rest[rest.len() - 1]);
                    lemma_filter_from(uncommitted, with_id(id), rest.len() - 1);
                }
            }
            assert forall|r: RowView| #[trigger]
                present(stored, uncommitted, r) != 0 && op.admits(r.rowid, original) implies op.admits(
                r.rowid,
                target,
            ) && r.rowid != id && !op.nearer(r.rowid, id) by {
                lemma_no_nearer(stored, uncommitted, target, op, entry, r);
                if r.rowid == id {
                    lemma_round_weight(stored, uncommitted, target, op, entry, r);
                }
            }
        }
    }
}

/// Whether a search for `original` that has come to `target` may end with `found` within some
/// rounds, storage answering each time with the row that it holds first.
pub open spec fn may_end_with(
    stored: Stored,
    uncommitted: Seq<Change>,
    original: i64,
    target: i64,
    op: SeekOp,
    rounds: nat,
    found: Option<RowView>,
) -> bool
    decreases rounds,
{
    exists|entry: Seq<Change>| #[trigger]
        is_entry(stored, target, op, entry) && {
            let all = seen(uncommitted, target, op, entry);
            ||| found matches Some(row) && is_found(all, original, op, row)
            ||| found is None && none_found(all, original, op) && (all.len() == 0 || next_target(
                all,
                op,
            ) is None)
            ||| rounds > 0 && none_found(all, original, op) && all.len() > 0 && target_fits(all, op)
                && next_target(all, op) is Some && may_end_with(
                stored,
                uncommitted,
                original,
                next_target(all, op)->Some_0 as i64,
                op,
                (rounds - 1) as nat,
                found,
            )
        }
}

/// A search that goes on goes on further out.
proof fn lemma_goes_further(
    stored: Stored,
    uncommitted: Seq<Change>,
    original: i64,
    target: i64,
    op: SeekOp,
    entry: Seq<Change>,
)
    requires
        normal(uncommitted),
        forall|id: i64| #[trigger] stored.dom().contains(id) ==> stored[id].1 > 0,
        is_entry(stored, target, op, entry),
        op.admits(target, original) || target == original,
        none_found(seen(uncommitted, target, op, entry), original, op),
        seen(uncommitted, target, op, entry).len() > 0,
        next_target(seen(uncommitted, target, op, entry), op) is Some,
        target_fits(seen(uncommitted, target, op, entry), op),
    ensures
        op.admits(
            next_target(seen(uncommitted, target, op, entry), op)->Some_0 as i64,
            original,
        ),
{
    let all = seen(uncommitted, target, op, entry);
    let rest = sought(uncommitted, target, op);
    lemma_all_cancelled(stored, uncommitted, original, target, op, entry);
    lemma_nearest(uncommitted, target, op);
    let id = entry[0].0.rowid;
    assert(all.first().0.rowid == id);
    if rest.len() > 0 {
        assert(all[all.len() - 1] == rest[rest.len() - 1]);
        lemma_filter_from(uncommitted, with_id(id), rest.len() - 1);
    }
    assert(all.last().0.rowid == id);
    assert(op.admits(id, target));
}

proof fn lemma_search_ends(
    stored: Stored,
    uncommitted: Seq<Change>,
    original: i64,
    target: i64,
    op: SeekOp,
    rounds: nat,
    found: Option<RowView>,
    other: RowView,
)
    requires
        normal(uncommitted),
        forall|id: i64| #[trigger] stored.dom().contains(id) ==> stored[id].1 > 0,
        passed(stored, uncommitted, original, target as int, op),
        op.admits(target, original) || target == original,
        may_end_with(stored, uncommitted, original, target, op, rounds, found),
    ensures
        match found {
            Some(row) => is_first(stored, uncommitted, original, op, row),
            None => present(stored, uncommitted, other) != 0 ==> !op.admits(
                other.rowid,
                original,
            ),
        },
    decreases rounds,
{
    let entry = choose|entry: Seq<Change>| #[trigger]
        is_entry(stored, target, op, entry) && {
            let all = seen(uncommitted, target, op, entry);
            ||| found matches Some(row) && is_found(all, original, op, row)
            ||| found is None && none_found(all, original, op) && (all.len() == 0 || next_target(
                all,
                op,
            ) is None)
            ||| rounds > 0 && none_found(all, original, op) && all.len() > 0 && target_fits(all, op)
                && next_target(all, op) is Some && may_end_with(
                stored,
                uncommitted,
                original,
                next_target(all, op)->Some_0 as i64,
                op,
                (rounds - 1) as nat,
                found,
            )
        };
    let all = seen(uncommitted, target, op, entry);
    law_searches_are_exact(stored, uncommitted, original, target, op, entry, other);
    if let Some(row) = found {
        law_searches_are_exact(stored, uncommitted, original, target, op, entry, row);
    }
    let ends = (found matches Some(row) && is_found(all, original, op, row)) || (found is None
        && none_found(all, original, op) && (all.len() == 0 || next_target(all, op) is None));
    if !ends {
        lemma_goes_further(stored, uncommitted, original, target, op, entry);
        lemma_search_ends(
            stored,
            uncommitted,
            original,
            next_target(all, op)->Some_0 as i64,
            op,
            (rounds - 1) as nat,
            found,
            other,
        );
    }
}

/// A search finds the first row that the view holds as the transaction sees it, and ends without a
/// row only where the view holds none that may be found.
pub proof fn law_a_search_finds_the_first_row(
    stored: Stored,
    uncommitted: Seq<Change>,
    target: i64,
    op: SeekOp,
    rounds: nat,
    found: Option<RowView>,
)
    requires
        normal(uncommitted),
        forall|id: i64| #[trigger] stored.dom().contains(id) ==> stored[id].1 > 0,
        may_end_with(stored, uncommitted, target, target, op, rounds, found),
    ensures
        match found {
            Some(row) => is_first(stored, uncommitted, target, op, row),
            None => forall|row: RowView| #[trigger]
                present(stored, uncommitted, row) != 0 ==> !op.admits(row.rowid, target),
        },
{
    assert forall|other: RowView| true implies (match found {
        Some(row) => is_first(stored, uncommitted, target, op, row),
        None => #[trigger] present(stored, uncommitted, other) != 0 ==> !op.admits(
            other.rowid,
            target,
        ),
    }) by {
        lemma_search_ends(stored, uncommitted, target, target, op, rounds, found, other);
    }
    let any = RowView { rowid: 0, values: Seq::empty() };
    lemma_search_ends(stored, uncommitted, target, target, op, rounds, found, any);
}

/// Where all that a round sees has cancelled, storage and the uncommitted changes have met at one
/// row id, or both have nothing.
proof fn lemma_all_cancelled(
    stored: Stored,
    uncommitted: Seq<Change>,
    original: i64,
    target: i64,
    op: SeekOp,
    entry: Seq<Change>,
)
    requires
        normal(uncommitted),
        forall|id: i64| #[trigger] stored.dom().contains(id) ==> stored[id].1 > 0,
        is_entry(stored, target, op, entry),
        op.admits(target, original) || target == original,
        none_found(seen(uncommitted, target, op, entry), original, op),
    ensures
        seen(uncommitted, target, op, entry).len() > 0 ==> entry.len() == 1 && nearest(
            uncommitted,
            target,
            op,
        ) == Some(entry[0].0.rowid),
{
    let all = seen(uncommitted, target, op, entry);
    let u = nearest(uncommitted, target, op);
    lemma_nearest(uncommitted, target, op);
    if entry.len() > 0 && u != Some(entry[0].0.rowid) {
        // The stored row alone gives its row a weight.
        let row = entry[0].0;
        lemma_weight_concat(entry, sought(uncommitted, target, op), row);
        assert(entry =~= seq![entry[0]]);
        lemma_one_weight(entry[0], row);
        if u is Some {
            lemma_weight_with_id(uncommitted, u->Some_0, row);
        }
        assert(stored.dom().contains(row.rowid));
        assert(weight(all, row) != 0);
        assert(op.admits(row.rowid, original));
    }
    if entry.len() == 0 && u is Some {
        // The uncommitted changes alone give their rows a weight.
        let id = u->Some_0;
        let i = choose|i: int| 0 <= i < uncommitted.len() && (#[trigger] uncommitted[i]).0.rowid
            == id;
        let row = uncommitted[i].0;
        lemma_weight_distinct(uncommitted, i);
        lemma_weight_concat(entry, sought(uncommitted, target, op), row);
        lemma_weight_with_id(uncommitted, id, row);
        assert(entry =~= Seq::<Change>::empty());
        assert(weight(all, row) != 0);
        assert(op.admits(row.rowid, original));
    }
    if entry.len() == 0 && u is None {
        assert(all =~= Seq::<Change>::empty());
    }
}

proof fn lemma_found_is_first(
    stored: Stored,
    uncommitted: Seq<Change>,
    original: i64,
    target: i64,
    op: SeekOp,
    entry: Seq<Change>,
    row: RowView,
)
    requires
        normal(uncommitted),
        forall|id: i64| #[trigger] stored.dom().contains(id) ==> stored[id].1 > 0,
        is_entry(stored, target, op, entry),
        passed(stored, uncommitted, original, target as int, op),
        op.admits(target, original) || target == original,
        is_found(seen(uncommitted, target, op, entry), original, op, row),
    ensures
        is_first(stored, uncommitted, original, op, row),
{
    let all = seen(uncommitted, target, op, entry);
    let u = nearest(uncommitted, target, op);
    lemma_nearest(uncommitted, target, op);
    // The row is one of those seen.
    lemma_occurs(all, row);
    let i = choose|i: int| 0 <= i < all.len() && (#[trigger] all[i]).0 == row;
    let rest = sought(uncommitted, target, op);
    if i < entry.len() {
        assert(all[i] == entry[i]);
    } else {
        assert(all[i] == rest[i - entry.len()]);
        lemma_filter_from(uncommitted, with_id(u->Some_0), i - entry.len());
    }
    assert(op.admits(row.rowid, target));
    // Nothing that was seen is nearer: what is nearest has not cancelled.
    if entry.len() > 0 && op.nearer(entry[0].0.rowid, row.rowid) {
        let e = entry[0].0;
        assert(u == Some(row.rowid));
        lemma_weight_concat(entry, rest, e);
        assert(entry =~= seq![entry[0]]);
        lemma_one_weight(entry[0], e);
        lemma_weight_with_id(uncommitted, u->Some_0, e);
        assert(stored.dom().contains(e.rowid));
        assert(weight(all, e) != 0);
        assert(op.admits(e.rowid, original));
    }
    if u is Some && op.nearer(u->Some_0, row.rowid) {
        let id = u->Some_0;
        let j = choose|j: int| 0 <= j < uncommitted.len() && (#[trigger] uncommitted[j]).0.rowid
            == id;
        let c = uncommitted[j].0;
        lemma_weight_distinct(uncommitted, j);
        lemma_weight_concat(entry, rest, c);
        lemma_weight_with_id(uncommitted, id, c);
        assert(entry.len() > 0 && entry[0].0.rowid == row.rowid);
        assert(entry =~= seq![entry[0]]);
        lemma_one_weight(entry[0], c);
        assert(weight(all, c) != 0);
        assert(op.admits(c.rowid, original));
    }
    lemma_round_weight(stored, uncommitted, target, op, entry, row);
    assert forall|other: RowView| #[trigger]
        present(stored, uncommitted, other) != 0 && op.admits(other.rowid, original) implies !op.nearer(
        other.rowid,
        row.rowid,
    ) by {
        lemma_no_nearer(stored, uncommitted, target, op, entry, other);
    }
}

// The cursor.

/// What a search has come to, or what is to be done for it.
#[derive(Debug, PartialEq, Eq, Clone, Copy, Structural)]
pub enum SeekStep {
    Storage(StorageAction),
    Done(SeekResult),
}

/// What a move has come to, or what is to be done for it. A move that is done tells whether the
/// cursor stands at a row.
#[derive(Debug, PartialEq, Eq, Clone, Copy, Structural)]
pub enum MoveStep {
    Storage(StorageAction),
    Done(bool),
}

/// What a row is looked for by.
#[derive(Debug)]
pub enum SeekKey {
    TableRowId(i64),
    IndexKey(Vec<Value>),
}

/// A cursor over a view.
pub struct MaterializedViewCursor {
    /// The changes of the transaction, or the whole result.
    pub uncommitted: RowKeyZSet,
    /// How many changes the transaction had made when `uncommitted` was computed.
    pub last_tx_state_len: usize,
    pub current_row: Option<(i64, Vec<Value>)>,
    pub seek_state: SeekState,
    /// Whether `uncommitted` is the whole result, so that storage is not read.
    pub full_result_mode: bool,
    pub limit: Option<i64>,
    /// How many rows the cursor has stood at since it was rewound.
    pub rows_returned: i64,
    pub order_by: MatviewOrderBy,
    /// The rows of the view in its order, where it has an ORDER BY and there are changes.
    pub sorted_index_snapshot: Option<Vec<(i64, Vec<Value>)>>,
    pub sorted_index_pos: usize,
    /// What has been read of storage for the snapshot so far.
    pub collected: Option<Delta>,
    /// What storage held when the snapshot was made.
    pub listed: Ghost<Seq<Change>>,
}

pub open spec fn row_at(row: Option<(i64, Vec<Value>)>) -> Option<RowView> {
    match row {
        Some(r) => Some(RowView { rowid: r.0, values: data(r.1@) }),
        None => None,
    }
}

/// Whether two cursors differ at most in where they stand and how far a search has come.
pub open spec fn same_source(a: MaterializedViewCursor, b: MaterializedViewCursor) -> bool {
    &&& a.uncommitted == b.uncommitted
    &&& a.last_tx_state_len == b.last_tx_state_len
    &&& a.full_result_mode == b.full_result_mode
    &&& a.limit == b.limit
    &&& a.order_by == b.order_by
    &&& a.sorted_index_snapshot == b.sorted_index_snapshot
    &&& a.sorted_index_pos == b.sorted_index_pos
    &&& a.collected == b.collected
    &&& a.listed == b.listed
}

/// How storage is moved on for a search.
pub open spec fn advance_action(op: SeekOp) -> StorageAction {
    if op.is_forward() {
        StorageAction::Next
    } else {
        StorageAction::Prev
    }
}

/// Whether a cursor has gone through a round of a search for `original` that has come to `target`.
pub open spec fn round_done(
    before: MaterializedViewCursor,
    after: MaterializedViewCursor,
    original: i64,
    target: i64,
    op: SeekOp,
    entry: Seq<Change>,
    step: SeekStep,
) -> bool {
    let all = seen(before.uncommitted@, target, op, entry);
    match step {
        SeekStep::Done(SeekResult::Found) => {
            &&& after.seek_state == SeekState::Done
            &&& row_at(after.current_row) matches Some(row) && is_found(all, original, op, row)
        },
        SeekStep::Done(_) => {
            &&& step == SeekStep::Done(SeekResult::NotFound)
            &&& after.seek_state == SeekState::Done
            &&& after.current_row is None
            &&& none_found(all, original, op)
            &&& all.len() == 0 || next_target(all, op) is None
        },
        SeekStep::Storage(action) => {
            &&& action matches StorageAction::Seek { target: t, op: o } && o == op
                && after.seek_state == (SeekState::Seek {
                target: t,
                original_target_rowid: original,
            }) && next_target(all, op) == Some(t as int)
            &&& after.current_row is None
            &&& none_found(all, original, op)
            &&& all.len() > 0
        },
    }
}

/// Whether a cursor has taken a step of a search in the way that it should.
pub open spec fn seek_done(
    before: MaterializedViewCursor,
    after: MaterializedViewCursor,
    target_rowid: i64,
    op: SeekOp,
    event: StorageEvent,
    step: SeekStep,
) -> bool {
    match before.seek_state {
        SeekState::Seek { target, original_target_rowid } => match event {
            StorageEvent::Sought(SeekResult::Found) => step == SeekStep::Storage(
                StorageAction::Read,
            ) && after.seek_state == before.seek_state && after.current_row
                == before.current_row,
            StorageEvent::Sought(SeekResult::TryAdvance) => step == SeekStep::Storage(
                advance_action(op),
            ) && after.seek_state == (SeekState::Advancing {
                target,
                original_target_rowid,
                op,
            }) && after.current_row == before.current_row,
            StorageEvent::Sought(SeekResult::NotFound) => round_done(
                before,
                after,
                original_target_rowid,
                target,
                op,
                Seq::empty(),
                step,
            ),
            StorageEvent::Entry(e) => round_done(
                before,
                after,
                original_target_rowid,
                target,
                op,
                entry_changes(e),
                step,
            ),
            _ => step == SeekStep::Storage(StorageAction::Seek { target, op }) && after.seek_state
                == before.seek_state && after.current_row == before.current_row,
        },
        SeekState::Advancing { target, original_target_rowid, op: own } => match event {
            StorageEvent::Moved => step == SeekStep::Storage(StorageAction::Read)
                && after.seek_state == before.seek_state && after.current_row
                == before.current_row,
            StorageEvent::Entry(e) => round_done(
                before,
                after,
                original_target_rowid,
                target,
                own,
                entry_changes(e),
                step,
            ),
            _ => step == SeekStep::Storage(advance_action(own)) && after.seek_state
                == before.seek_state && after.current_row == before.current_row,
        },
        _ => if before.full_result_mode {
            round_done(before, after, target_rowid, target_rowid, op, Seq::empty(), step)
                && step is Done
        } else {
            &&& step == SeekStep::Storage(StorageAction::Seek { target: target_rowid, op })
            &&& after.seek_state == (SeekState::Seek {
                target: target_rowid,
                original_target_rowid: target_rowid,
            })
            &&& after.current_row is None
        },
    }
}

/// Whether the weights and row ids that a round sees can be worked with.
pub open spec fn round_fits(c: MaterializedViewCursor, op: SeekOp, event: StorageEvent) -> bool {
    let entry = match event {
        StorageEvent::Entry(e) => entry_changes(e),
        _ => Seq::empty(),
    };
    match c.seek_state {
        SeekState::Seek { target, original_target_rowid } => sight_fits(
            seen(c.uncommitted@, target, op, entry),
            original_target_rowid,
            op,
        ),
        SeekState::Advancing { target, original_target_rowid, op: own } => sight_fits(
            seen(c.uncommitted@, target, own, entry),
            original_target_rowid,
            own,
        ),
        _ => true,
    }
}

impl MaterializedViewCursor {
    /// Its changes are added up, and what it has listed are the rows of the view in their order.
    pub open spec fn wf(&self) -> bool {
        &&& normal(self.uncommitted@)
        &&& mass(self.uncommitted@) <= isize::MAX
        &&& searching(*self) ==> self.current_row is None && !self.is_index_organized()
        &&& self.sorted_index_snapshot matches Some(rows) ==> {
            &&& self.sorted_index_pos <= rows@.len()
            &&& !unchanged(*self)
            &&& lists(*self, self.listed@, row_list(rows@))
        }
        &&& self.order_by.columns@.len() < usize::MAX
    }

    pub open spec fn is_index_organized(&self) -> bool {
        self.order_by.columns@.len() > 0
    }

    /// A cursor over a view that was never moved.
    pub fn new(order_by: MatviewOrderBy, limit: Option<i64>) -> (r: Self)
        requires
            order_by.columns@.len() < usize::MAX,
        ensures
            r.wf(),
            r.uncommitted@.len() == 0,
            r.last_tx_state_len == 0,
            r.current_row is None,
            r.seek_state == SeekState::Init,
            !r.full_result_mode,
            r.limit == limit,
            r.rows_returned == 0,
            r.order_by == order_by,
            r.sorted_index_snapshot is None,
            r.sorted_index_pos == 0,
            r.collected is None,
    {
        MaterializedViewCursor {
            uncommitted: RowKeyZSet::new(),
            last_tx_state_len: 0,
            current_row: None,
            seek_state: SeekState::Init,
            full_result_mode: false,
            limit,
            rows_returned: 0,
            order_by,
            sorted_index_snapshot: None,
            sorted_index_pos: 0,
            collected: None,
            listed: Ghost(Seq::empty()),
        }
    }

    /// Whether the transaction has made changes since its changes to the view were computed. The
    /// changes of a transaction only grow in number.
    pub fn needs_changes(&self, current_len: usize) -> (r: bool)
        ensures
            r == (current_len != self.last_tx_state_len),
    {
        current_len != self.last_tx_state_len
    }

    /// Takes in the changes of the transaction to the view, computed when it had made
    /// `current_len` changes. What was listed of the view is void.
    pub fn set_changes(&mut self, delta: &Delta, full_result: bool, current_len: usize)
        requires
            old(self).wf(),
            mass(delta@) <= isize::MAX,
        ensures
            final(self).wf(),
            final(self).uncommitted@ == added_up(delta@),
            equivalent(final(self).uncommitted@, delta@),
            final(self).full_result_mode == full_result,
            final(self).last_tx_state_len == current_len,
            final(self).sorted_index_snapshot is None,
            final(self).sorted_index_pos == 0,
            final(self).collected is None,
            final(self).current_row == old(self).current_row,
            final(self).seek_state == old(self).seek_state,
            final(self).limit == old(self).limit,
            final(self).rows_returned == old(self).rows_returned,
            final(self).order_by == old(self).order_by,
    {
        self.uncommitted = RowKeyZSet::from_delta(delta);
        self.full_result_mode = full_result;
        self.last_tx_state_len = current_len;
        self.sorted_index_snapshot = None;
        self.sorted_index_pos = 0;
        self.collected = None;
    }

    /// Goes through a round of a search.
    fn finish_round(
        &mut self,
        original: i64,
        target: i64,
        op: SeekOp,
        entry: Option<(HashableRow, isize)>,
    ) -> (r: SeekStep)
        requires
            old(self).wf(),
            !old(self).is_index_organized(),
            old(self).current_row is None,
            sight_fits(
                seen(old(self).uncommitted@, target, op, entry_changes(entry)),
                original,
                op,
            ),
        ensures
            final(self).wf(),
            same_source(*final(self), *old(self)),
            final(self).rows_returned == old(self).rows_returned,
            round_done(
                *old(self),
                *final(self),
                original,
                target,
                op,
                entry_changes(entry),
                r,
            ),
    {
        match process_btree_changes(&self.uncommitted, target, original, op, entry) {
            Round::Found(row) => {
                let ghost v = row@;
                let HashableRow { rowid, values } = row;
                self.current_row = Some((rowid, values));
                self.seek_state = SeekState::Done;
                assert(row_at(self.current_row)->Some_0 =~= v);
                SeekStep::Done(SeekResult::Found)
            },
            Round::NotFound => {
                self.seek_state = SeekState::Done;
                SeekStep::Done(SeekResult::NotFound)
            },
            Round::GoOn { target: next } => {
                self.seek_state =
                SeekState::Seek { target: next, original_target_rowid: original };
                SeekStep::Storage(StorageAction::Seek { target: next, op })
            },
        }
    }

    /// Goes on with a search. Where none is under way, one for `target_rowid` is started.
    pub fn do_seek(&mut self, target_rowid: i64, op: SeekOp, event: StorageEvent) -> (r: SeekStep)
        requires
            old(self).wf(),
            !old(self).is_index_organized(),
            round_fits(*old(self), op, event),
        ensures
            final(self).wf(),
            same_source(*final(self), *old(self)),
            final(self).rows_returned == old(self).rows_returned,
            seek_done(*old(self), *final(self), target_rowid, op, event, r),
    {
        match self.seek_state {
            SeekState::Seek { target, original_target_rowid } => match event {
                StorageEvent::Sought(SeekResult::Found) => SeekStep::Storage(StorageAction::Read),
                StorageEvent::Sought(SeekResult::TryAdvance) => {
                    self.seek_state =
                    SeekState::Advancing { target, original_target_rowid, op };
                    if op.forward() {
                        SeekStep::Storage(StorageAction::Next)
                    } else {
                        SeekStep::Storage(StorageAction::Prev)
                    }
                },
                StorageEvent::Sought(SeekResult::NotFound) => {
                    assert(entry_changes(None) =~= Seq::<Change>::empty());
                    self.finish_round(original_target_rowid, target, op, None)
                },
                StorageEvent::Entry(entry) => self.finish_round(
                    original_target_rowid,
                    target,
                    op,
                    entry,
                ),
                _ => SeekStep::Storage(StorageAction::Seek { target, op }),
            },
            SeekState::Advancing { target, original_target_rowid, op: own } => match event {
                StorageEvent::Moved => SeekStep::Storage(StorageAction::Read),
                StorageEvent::Entry(entry) => self.finish_round(
                    original_target_rowid,
                    target,
                    own,
                    entry,
                ),
                _ => if own.forward() {
                    SeekStep::Storage(StorageAction::Next)
                } else {
                    SeekStep::Storage(StorageAction::Prev)
                },
            },
            _ => {
                self.current_row = None;
                if self.full_result_mode {
                    self.search_result(target_rowid, op)
                } else {
                    self.seek_state =
                    SeekState::Seek {
                        target: target_rowid,
                        original_target_rowid: target_rowid,
                    };
                    SeekStep::Storage(StorageAction::Seek { target: target_rowid, op })
                }
            },
        }
    }

    /// Searches the changes alone.
    fn search_result(&mut self, target: i64, op: SeekOp) -> (r: SeekStep)
        requires
            old(self).wf(),
            old(self).current_row is None,
            !(old(self).seek_state is Seek) && !(old(self).seek_state is Advancing),
        ensures
            final(self).wf(),
            same_source(*final(self), *old(self)),
            final(self).rows_returned == old(self).rows_returned,
            r is Done,
            round_done(*old(self), *final(self), target, target, op, Seq::empty(), r),
    {
        let ghost u = self.uncommitted@;
        let ghost all = seen(u, target, op, Seq::empty());
        let found = self.uncommitted.seek(target, op);
        proof {
            lemma_found(u, u, target, op);
            lemma_nearest(u, target, op);
            assert(all =~= sought(u, target, op));
            match nearest(u, target, op) {
                Some(id) => {
                    assert forall|row: RowView| #[trigger]
                        weight(all, row) != 0 implies weight(u, row) != 0 by {
                        lemma_weight_with_id(u, id, row);
                    }
                    if found@.len() > 0 {
                        lemma_filter_from(u, with_id(id), 0);
                        lemma_weight_with_id(u, id, found@[0].0);
                    } else {
                        let i = choose|i: int|
                            0 <= i < u.len() && (#[trigger] u[i]).0.rowid == id;
                        u.filter_lemma(with_id(id));
                        assert(all.contains(u[i]));
                    }
                },
                None => {},
            }
        }
        if found.is_empty() {
            self.seek_state = SeekState::Done;
            SeekStep::Done(SeekResult::NotFound)
        } else {
            let ghost v = found@[0].0;
            let row = &found.changes[0].0;
            assert(row@ == v);
            self.current_row = Some((row.rowid, copy_values(&row.values)));
            self.seek_state = SeekState::Done;
            assert(row_at(self.current_row)->Some_0 =~= v);
            SeekStep::Done(SeekResult::Found)
        }
    }

    /// Goes on with a search for a row, or starts one where none is under way. Only a row id can be
    /// looked for, and only in a view without ORDER BY.
    pub fn seek(&mut self, key: &SeekKey, op: SeekOp, event: StorageEvent) -> (r: Result<
        SeekStep,
        LimboError,
    >)
        requires
            old(self).wf(),
            round_fits(*old(self), op, event),
        ensures
            final(self).wf(),
            same_source(*final(self), *old(self)),
            final(self).rows_returned == old(self).rows_returned,
            if old(self).is_index_organized() {
                &&& r matches Err(e) && e@ == ErrorView::ParseError(
                    "Rowid-keyed seek is not supported on materialized views with ORDER BY"@,
                )
                &&& *final(self) == *old(self)
            } else {
                match key {
                    SeekKey::TableRowId(rowid) => r matches Ok(step) && seek_done(
                        *old(self),
                        *final(self),
                        *rowid,
                        op,
                        event,
                        step,
                    ),
                    SeekKey::IndexKey(_) => {
                        &&& r matches Err(e) && e@ == ErrorView::ParseError(
                            "Cannot search a materialized view with an index key"@,
                        )
                        &&& *final(self) == *old(self)
                    },
                }
            },
    {
        if self.order_by.columns.len() > 0 {
            return Err(
                parse_error(
                    "Rowid-keyed seek is not supported on materialized views with ORDER BY",
                ),
            );
        }
        match key {
            SeekKey::TableRowId(rowid) => Ok(self.do_seek(*rowid, op, event)),
            SeekKey::IndexKey(_) => Err(
                parse_error("Cannot search a materialized view with an index key"),
            ),
        }
    }

    /// A column of the row that the cursor stands at, NULL where it stands at none or the row has
    /// no such column.
    pub fn column(&self, col: usize) -> (r: Value)
        ensures
            r@ == (match row_at(self.current_row) {
                Some(row) => if col < row.values.len() {
                    row.values[col as int]
                } else {
                    Datum::Null
                },
                None => Datum::Null,
            }),
    {
        match &self.current_row {
            Some(row) => if col < row.1.len() {
                assert(data(row.1@)[col as int] == row.1@[col as int]@);
                row.1[col].clone()
            } else {
                Value::Null
            },
            None => Value::Null,
        }
    }

    /// The row id of the row that the cursor stands at.
    pub fn rowid(&self) -> (r: Option<i64>)
        ensures
            match row_at(self.current_row) {
                Some(row) => r == Some(row.rowid),
                None => r is None,
            },
    {
        match &self.current_row {
            Some(row) => Some(row.0),
            None => None,
        }
    }

    /// Whether the cursor stands at a row.
    pub fn is_valid(&self) -> (r: bool)
        ensures
            r == (self.current_row is Some),
    {
        self.current_row.is_some()
    }
}

// Going through a view.

/// Whether the LIMIT of a view has been reached. A whole result has had it applied.
pub open spec fn limit_reached(c: MaterializedViewCursor) -> bool {
    !c.full_result_mode && (c.limit matches Some(l) && c.rows_returned >= l)
}

/// A step of a search as a step of a move.
pub open spec fn as_move(step: SeekStep) -> MoveStep {
    match step {
        SeekStep::Storage(a) => MoveStep::Storage(a),
        SeekStep::Done(r) => MoveStep::Done(r == SeekResult::Found),
    }
}

/// Whether a search is under way.
pub open spec fn searching(c: MaterializedViewCursor) -> bool {
    c.seek_state is Seek || c.seek_state is Advancing
}

/// The row of an entry that was read.
pub open spec fn entry_row(entry: Option<(HashableRow, isize)>) -> Option<RowView> {
    match entry {
        Some(e) => Some(e.0@),
        None => None,
    }
}

/// Whether a cursor has stepped to the next row that a search finds.
pub open spec fn searched_on(
    before: MaterializedViewCursor,
    after: MaterializedViewCursor,
    target: i64,
    event: StorageEvent,
    r: MoveStep,
) -> bool {
    exists|step: SeekStep| #[trigger]
        as_move(step) == r && seek_done(before, after, target, SeekOp::GT, event, step)
            && after.rows_returned == before.rows_returned + (if r == MoveStep::Done(true) {
            1int
        } else {
            0
        })
}

/// Whether a cursor over a view with ORDER BY has stepped to the next row.
pub open spec fn listed_on(
    before: MaterializedViewCursor,
    after: MaterializedViewCursor,
    event: StorageEvent,
    r: MoveStep,
) -> bool {
    match before.sorted_index_snapshot {
        Some(rows) => if before.sorted_index_pos >= rows@.len() {
            &&& r == MoveStep::Done(false)
            &&& after.current_row is None
            &&& after.sorted_index_pos == before.sorted_index_pos
            &&& after.rows_returned == before.rows_returned
        } else {
            &&& r == MoveStep::Done(true)
            &&& row_at(after.current_row) == Some(row_list(rows@)[before.sorted_index_pos as int])
            &&& after.sorted_index_pos == before.sorted_index_pos + 1
            &&& after.rows_returned == before.rows_returned + 1
        },
        None => {
            &&& after.sorted_index_pos == before.sorted_index_pos
            &&& match event {
                StorageEvent::Moved => r == MoveStep::Storage(StorageAction::Read)
                    && after.current_row == before.current_row && after.rows_returned
                    == before.rows_returned,
                StorageEvent::Entry(e) => {
                    &&& r == MoveStep::Done(e is Some)
                    &&& row_at(after.current_row) == entry_row(e)
                    &&& after.rows_returned == before.rows_returned + (if e is Some {
                        1int
                    } else {
                        0
                    })
                },
                _ => r == MoveStep::Storage(StorageAction::Next) && after.current_row
                    == before.current_row && after.rows_returned == before.rows_returned,
            }
        },
    }
}

/// Whether a cursor stands at the start of a view whose first row is `row`. A LIMIT that lets
/// nothing through leaves it at none.
pub open spec fn begun(after: MaterializedViewCursor, row: Option<RowView>, r: MoveStep) -> bool {
    let shown = if !after.full_result_mode && (after.limit matches Some(l) && l <= 0) {
        None
    } else {
        row
    };
    &&& row_at(after.current_row) == shown
    &&& after.rows_returned == (if shown is Some {
        1int
    } else {
        0
    })
    &&& r == MoveStep::Done(shown is Some)
}

/// Whether a cursor reads storage alone: the transaction has changed nothing.
pub open spec fn unchanged(c: MaterializedViewCursor) -> bool {
    c.uncommitted@.len() == 0 && !c.full_result_mode
}

/// Whether rows are those of a view with the changes of a transaction, in the order of the view.
pub open spec fn lists(c: MaterializedViewCursor, stored: Seq<Change>, rows: Seq<RowView>) -> bool {
    holds_in_order(
        merged(stored, c.uncommitted@, c.full_result_mode),
        c.order_by.columns@,
        rows,
    )
}

/// Whether rows are those that changes add up to, each as often as its weight says, in an order.
pub open spec fn holds_in_order(
    total: Seq<Change>,
    columns: Seq<SortColumn>,
    rows: Seq<RowView>,
) -> bool {
    &&& rows_in_order(columns, rows)
    &&& forall|row: RowView| #[trigger]
        occurrences(rows, row) == (if weight(total, row) > 0 {
            weight(total, row)
        } else {
            0
        })
}

/// What has been read of storage, as changes.
pub open spec fn collected_of(c: MaterializedViewCursor) -> Seq<Change> {
    match c.collected {
        Some(d) => d@,
        None => Seq::empty(),
    }
}

/// Whether a listing can be made: its rows can be counted.
pub open spec fn listing_fits(c: MaterializedViewCursor) -> bool {
    mass(merged(collected_of(c), c.uncommitted@, c.full_result_mode)) <= isize::MAX
}

/// Whether a cursor with a listing stands at its start.
pub open spec fn at_listing(after: MaterializedViewCursor, r: MoveStep) -> bool {
    &&& after.sorted_index_snapshot matches Some(rows) && begun(
        after,
        if rows@.len() > 0 {
            Some(row_list(rows@)[0])
        } else {
            None
        },
        r,
    ) && after.sorted_index_pos == (if rows@.len() > 0 {
        1int
    } else {
        0
    })
}

/// Whether a step of a rewind that is not done has left a cursor where it was.
pub open spec fn waits(
    before: MaterializedViewCursor,
    after: MaterializedViewCursor,
    r: MoveStep,
    action: StorageAction,
) -> bool {
    &&& r == MoveStep::Storage(action)
    &&& after.current_row == before.current_row
    &&& after.sorted_index_snapshot == before.sorted_index_snapshot
    &&& after.sorted_index_pos == before.sorted_index_pos
    &&& after.listed == before.listed
    &&& after.rows_returned == 0
}

/// Whether a cursor over a view with ORDER BY has been taken to its start, by a step.
pub open spec fn list_rewound(
    before: MaterializedViewCursor,
    after: MaterializedViewCursor,
    event: StorageEvent,
    r: MoveStep,
) -> bool {
    if unchanged(before) {
        &&& after.collected == before.collected
        &&& after.listed == before.listed
        &&& after.sorted_index_snapshot == before.sorted_index_snapshot
        &&& after.sorted_index_pos == before.sorted_index_pos
        &&& match event {
            StorageEvent::Moved => waits(before, after, r, StorageAction::Read),
            StorageEvent::Entry(e) => begun(after, entry_row(e), r),
            _ => waits(before, after, r, StorageAction::Rewind),
        }
    } else if before.sorted_index_snapshot is Some {
        &&& after.sorted_index_snapshot == before.sorted_index_snapshot
        &&& after.collected == before.collected
        &&& after.listed == before.listed
        &&& at_listing(after, r)
    } else if before.full_result_mode {
        &&& at_listing(after, r)
        &&& after.listed@ == collected_of(before)
        &&& lists(
            before,
            collected_of(before),
            row_list(after.sorted_index_snapshot->Some_0@),
        )
        &&& after.collected is None
    } else {
        match event {
            StorageEvent::Moved => waits(before, after, r, StorageAction::Read) && collected_of(
                after,
            ) == collected_of(before),
            StorageEvent::Entry(Some(e)) => waits(before, after, r, StorageAction::Next)
                && collected_of(after) == collected_of(before).push((e.0@, e.1 as int)),
            StorageEvent::Entry(None) => {
                &&& at_listing(after, r)
                &&& after.listed@ == collected_of(before)
                &&& lists(
                    before,
                    collected_of(before),
                    row_list(after.sorted_index_snapshot->Some_0@),
                )
                &&& collected_of(after) == Seq::<Change>::empty()
            },
            _ => waits(before, after, r, StorageAction::Rewind) && collected_of(after)
                == Seq::<Change>::empty(),
        }
    }
}

/// Whether two cursors read the same view with the same changes.
pub open spec fn same_view(a: MaterializedViewCursor, b: MaterializedViewCursor) -> bool {
    &&& a.uncommitted == b.uncommitted
    &&& a.last_tx_state_len == b.last_tx_state_len
    &&& a.full_result_mode == b.full_result_mode
    &&& a.limit == b.limit
    &&& a.order_by == b.order_by
}

/// Whether a cursor has gone on with a step to the next row. The LIMIT of the view ends it early.
pub open spec fn next_step(
    before: MaterializedViewCursor,
    after: MaterializedViewCursor,
    event: StorageEvent,
    r: MoveStep,
) -> bool {
    &&& same_view(after, before)
    &&& after.sorted_index_snapshot == before.sorted_index_snapshot
    &&& after.collected == before.collected
    &&& after.listed == before.listed
    &&& if limit_reached(before) {
        &&& r == MoveStep::Done(false)
        &&& after == (MaterializedViewCursor { current_row: None, ..before })
    } else if before.is_index_organized() {
        &&& after.seek_state == before.seek_state
        &&& listed_on(before, after, event, r)
    } else {
        &&& after.sorted_index_pos == before.sorted_index_pos
        &&& if searching(before) {
            searched_on(before, after, 0, event, r)
        } else {
            match row_at(before.current_row) {
                Some(row) => searched_on(before, after, row.rowid, StorageEvent::Resume, r),
                None => r == MoveStep::Done(false) && after == before,
            }
        }
    }
}

/// Whether a cursor has gone on with being taken to the first row of the view.
pub open spec fn rewind_step(
    before: MaterializedViewCursor,
    after: MaterializedViewCursor,
    event: StorageEvent,
    r: MoveStep,
) -> bool {
    &&& same_view(after, before)
    &&& if before.is_index_organized() {
        &&& after.seek_state == before.seek_state
        &&& list_rewound(before, after, event, r)
    } else {
        &&& same_source(after, before)
        &&& exists|mid: MaterializedViewCursor, step: SeekStep| #[trigger]
            seek_done(before, mid, i64::MIN, SeekOp::GT, event, step) && match step {
                SeekStep::Storage(a) => r == MoveStep::Storage(a) && after.current_row
                    == mid.current_row && after.rows_returned == 0,
                SeekStep::Done(_) => begun(after, row_at(mid.current_row), r),
            } && after.seek_state == mid.seek_state
    }
}

impl MaterializedViewCursor {
    /// Goes on with a step to the next row. The LIMIT of the view ends it early.
    pub fn next(&mut self, event: StorageEvent) -> (r: MoveStep)
        requires
            old(self).wf(),
            round_fits(*old(self), SeekOp::GT, event),
            old(self).rows_returned < i64::MAX,
        ensures
            final(self).wf(),
            next_step(*old(self), *final(self), event, r),
    {
        if !self.full_result_mode {
            if let Some(limit) = self.limit {
                if self.rows_returned >= limit {
                    self.current_row = None;
                    return MoveStep::Done(false);
                }
            }
        }
        if self.order_by.columns.len() > 0 {
            let r = self.next_index_organized(event);
            if let MoveStep::Done(true) = r {
                self.rows_returned = self.rows_returned + 1;
            }
            return r;
        }
        let pending = match self.seek_state {
            SeekState::Seek { .. } => true,
            SeekState::Advancing { .. } => true,
            _ => false,
        };
        let step = if pending {
            self.do_seek(0, SeekOp::GT, event)
        } else {
            match &self.current_row {
                None => return MoveStep::Done(false),
                Some(row) => {
                    let rowid: i64 = row.0;
                    self.do_seek(rowid, SeekOp::GT, StorageEvent::Resume)
                },
            }
        };
        let r = match step {
            SeekStep::Storage(a) => MoveStep::Storage(a),
            SeekStep::Done(found) => MoveStep::Done(found == SeekResult::Found),
        };
        if let MoveStep::Done(true) = r {
            self.rows_returned = self.rows_returned + 1;
        }
        proof {
            assert(as_move(step) == r);
        }
        r
    }

    fn next_index_organized(&mut self, event: StorageEvent) -> (r: MoveStep)
        requires
            old(self).wf(),
            old(self).is_index_organized(),
        ensures
            final(self).rows_returned == old(self).rows_returned,
            final(self).wf(),
            same_view(*final(self), *old(self)),
            final(self).sorted_index_snapshot == old(self).sorted_index_snapshot,
            final(self).collected == old(self).collected,
            final(self).listed == old(self).listed,
            final(self).seek_state == old(self).seek_state,
            match old(self).sorted_index_snapshot {
                Some(rows) => if old(self).sorted_index_pos >= rows@.len() {
                    &&& r == MoveStep::Done(false)
                    &&& final(self).current_row is None
                    &&& final(self).sorted_index_pos == old(self).sorted_index_pos
                } else {
                    &&& r == MoveStep::Done(true)
                    &&& row_at(final(self).current_row) == Some(
                        row_list(rows@)[old(self).sorted_index_pos as int],
                    )
                    &&& final(self).sorted_index_pos == old(self).sorted_index_pos + 1
                },
                None => {
                    &&& final(self).sorted_index_pos == old(self).sorted_index_pos
                    &&& match event {
                        StorageEvent::Moved => r == MoveStep::Storage(StorageAction::Read)
                            && final(self).current_row == old(self).current_row,
                        StorageEvent::Entry(e) => r == MoveStep::Done(e is Some) && row_at(
                            final(self).current_row,
                        ) == entry_row(e),
                        _ => r == MoveStep::Storage(StorageAction::Next) && final(self).current_row
                            == old(self).current_row,
                    }
                },
            },
    {
        if let Some(rows) = &self.sorted_index_snapshot {
            let at: usize = self.sorted_index_pos;
            if at >= rows.len() {
                self.current_row = None;
                return MoveStep::Done(false);
            }
            let row = (rows[at].0, copy_values(&rows[at].1));
            assert(row_list(rows@)[at as int] =~= RowView { rowid: row.0, values: data(row.1@) });
            self.current_row = Some(row);
            self.sorted_index_pos = at + 1;
            return MoveStep::Done(true);
        }
        match event {
            StorageEvent::Moved => MoveStep::Storage(StorageAction::Read),
            StorageEvent::Entry(Some(e)) => {
                let HashableRow { rowid, values } = e.0;
                self.current_row = Some((rowid, values));
                MoveStep::Done(true)
            },
            StorageEvent::Entry(None) => {
                self.current_row = None;
                MoveStep::Done(false)
            },
            _ => MoveStep::Storage(StorageAction::Next),
        }
    }
}

impl MaterializedViewCursor {
    /// Counts the first row, if the LIMIT of the view lets it through.
    fn begin(&mut self) -> (r: MoveStep)
        requires
            old(self).wf(),
        ensures
            final(self).wf(),
            same_source(*final(self), *old(self)),
            final(self).seek_state == old(self).seek_state,
            begun(*final(self), row_at(old(self).current_row), r),
    {
        if !self.full_result_mode {
            if let Some(limit) = self.limit {
                if limit <= 0 {
                    self.current_row = None;
                }
            }
        }
        let found = self.current_row.is_some();
        self.rows_returned = if found {
            1
        } else {
            0
        };
        MoveStep::Done(found)
    }

    /// Goes to the start of the listing.
    fn begin_listing(&mut self) -> (r: MoveStep)
        requires
            old(self).wf(),
            !searching(*old(self)),
            old(self).sorted_index_snapshot is Some,
        ensures
            final(self).wf(),
            same_view(*final(self), *old(self)),
            final(self).seek_state == old(self).seek_state,
            final(self).sorted_index_snapshot == old(self).sorted_index_snapshot,
            final(self).collected == old(self).collected,
            final(self).listed == old(self).listed,
            at_listing(*final(self), r),
    {
        let mut first: Option<(i64, Vec<Value>)> = None;
        if let Some(rows) = &self.sorted_index_snapshot {
            if rows.len() > 0 {
                first = Some((rows[0].0, copy_values(&rows[0].1)));
                assert(row_at(first)->Some_0 =~= row_list(rows@)[0]);
            }
        }
        self.sorted_index_pos = if first.is_some() {
            1
        } else {
            0
        };
        self.current_row = first;
        self.begin()
    }

    /// Lists the rows of the view and goes to the start of the listing.
    fn make_listing(&mut self) -> (r: MoveStep)
        requires
            old(self).wf(),
            !searching(*old(self)),
            !unchanged(*old(self)),
            listing_fits(*old(self)),
        ensures
            final(self).wf(),
            same_view(*final(self), *old(self)),
            final(self).seek_state == old(self).seek_state,
            final(self).collected is None,
            final(self).listed@ == collected_of(*old(self)),
            at_listing(*final(self), r),
            lists(
                *old(self),
                collected_of(*old(self)),
                row_list(final(self).sorted_index_snapshot->Some_0@),
            ),
    {
        let mut taken: Option<Delta> = None;
        std::mem::swap(&mut taken, &mut self.collected);
        let stored = match taken {
            Some(d) => d,
            None => Delta::new(),
        };
        assert(stored@ =~= collected_of(*old(self)));
        let rows = materialize_index_snapshot(
            &stored,
            &self.uncommitted,
            self.full_result_mode,
            &self.order_by,
        );
        self.listed = Ghost(stored@);
        self.sorted_index_snapshot = Some(rows);
        self.sorted_index_pos = 0;
        self.begin_listing()
    }

    /// Goes on with taking the cursor to the first row of the view.
    pub fn rewind(&mut self, event: StorageEvent) -> (r: MoveStep)
        requires
            old(self).wf(),
            round_fits(*old(self), SeekOp::GT, event),
            listing_fits(*old(self)),
        ensures
            final(self).wf(),
            rewind_step(*old(self), *final(self), event, r),
    {
        self.rows_returned = 0;
        if self.order_by.columns.len() == 0 {
            let step = self.do_seek(i64::MIN, SeekOp::GT, event);
            let ghost mid = *self;
            assert(seek_done(*old(self), mid, i64::MIN, SeekOp::GT, event, step));
            return match step {
                SeekStep::Storage(a) => MoveStep::Storage(a),
                SeekStep::Done(_) => self.begin(),
            };
        }
        if self.uncommitted.is_empty() && !self.full_result_mode {
            return match event {
                StorageEvent::Moved => MoveStep::Storage(StorageAction::Read),
                StorageEvent::Entry(Some(e)) => {
                    let HashableRow { rowid, values } = e.0;
                    self.current_row = Some((rowid, values));
                    self.begin()
                },
                StorageEvent::Entry(None) => {
                    self.current_row = None;
                    self.begin()
                },
                _ => MoveStep::Storage(StorageAction::Rewind),
            };
        }
        if self.sorted_index_snapshot.is_some() {
            return self.begin_listing();
        }
        if self.full_result_mode {
            return self.make_listing();
        }
        match event {
            StorageEvent::Moved => MoveStep::Storage(StorageAction::Read),
            StorageEvent::Entry(Some(e)) => {
                let mut taken: Option<Delta> = None;
                std::mem::swap(&mut taken, &mut self.collected);
                let mut stored = match taken {
                    Some(d) => d,
                    None => Delta::new(),
                };
                assert(stored@ =~= collected_of(*old(self)));
                stored.push(e.0, e.1);
                self.collected = Some(stored);
                MoveStep::Storage(StorageAction::Next)
            },
            StorageEvent::Entry(None) => self.make_listing(),
            _ => {
                self.collected = Some(Delta::new());
                MoveStep::Storage(StorageAction::Rewind)
            },
        }
    }
}

} // verus!
