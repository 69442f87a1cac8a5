//! Walking over a view from its first row on.
//!
//! The rows that a cursor comes to are stated here for whole walks: storage does what it is asked for
//! and tells the truth, and the cursor is asked for one row after the other.

use vstd::prelude::*;

use crate::cursor::{
    advance_action, as_move, at_listing, begun, collected_of, entry_changes, entry_row, is_entry,
    is_first, is_found, law_a_search_finds_the_first_row, limit_reached, lists, may_end_with,
    next_step, next_target, none_found, present, rewind_step, row_at, same_view, searching,
    seek_done, seen, target_fits, unchanged, MaterializedViewCursor, MoveStep, SeekState, SeekStep,
    StorageAction, StorageEvent, Stored,
};
use crate::index_walk::nth;
use crate::overlay::{sought, SeekOp};
use crate::snapshot::{merged, row_list};
use crate::value::{HashableRow, RowView};
use crate::write_row::SeekResult;
use crate::zset::{normal, weight, Change};

verus! {

// Views without ORDER BY.

/// The row id that a search has come to.
pub open spec fn target_of(c: MaterializedViewCursor) -> i64 {
    match c.seek_state {
        SeekState::Seek { target, .. } => target,
        SeekState::Advancing { target, .. } => target,
        _ => 0,
    }
}

/// Whether storage tells the truth: what it is asked to look for is where it stands when it is read,
/// and it says that there is nothing only where there is nothing. It may also say nothing yet.
pub open spec fn tells(
    stored: Stored,
    asking: MaterializedViewCursor,
    action: StorageAction,
    event: StorageEvent,
) -> bool {
    match (action, event) {
        (_, StorageEvent::Resume) => true,
        (StorageAction::Seek { target, op }, StorageEvent::Sought(r)) => r is NotFound
            ==> is_entry(stored, target, op, Seq::empty()),
        (StorageAction::Next, StorageEvent::Moved) => true,
        (StorageAction::Prev, StorageEvent::Moved) => true,
        (StorageAction::Read, StorageEvent::Entry(e)) => is_entry(
            stored,
            target_of(asking),
            SeekOp::GT,
            entry_changes(e),
        ),
        _ => false,
    }
}

/// Whether a move to the next row, gone on with an event, may end with the cursor `after` within some
/// steps.
pub open spec fn next_ends(
    stored: Stored,
    before: MaterializedViewCursor,
    event: StorageEvent,
    after: MaterializedViewCursor,
    found: bool,
    steps: nat,
) -> bool
    decreases steps,
{
    exists|mid: MaterializedViewCursor, r: MoveStep| #[trigger]
        next_step(before, mid, event, r) && match r {
            MoveStep::Done(f) => f == found && mid == after,
            MoveStep::Storage(a) => steps > 0 && exists|e: StorageEvent| #[trigger]
                tells(stored, mid, a, e) && next_ends(
                    stored,
                    mid,
                    e,
                    after,
                    found,
                    (steps - 1) as nat,
                ),
        }
}

/// Whether a move to the first row, gone on with an event, may end with the cursor `after` within
/// some steps.
pub open spec fn rewind_ends(
    stored: Stored,
    before: MaterializedViewCursor,
    event: StorageEvent,
    after: MaterializedViewCursor,
    found: bool,
    steps: nat,
) -> bool
    decreases steps,
{
    exists|mid: MaterializedViewCursor, r: MoveStep| #[trigger]
        rewind_step(before, mid, event, r) && match r {
            MoveStep::Done(f) => f == found && mid == after,
            MoveStep::Storage(a) => steps > 0 && exists|e: StorageEvent| #[trigger]
                tells(stored, mid, a, e) && rewind_ends(
                    stored,
                    mid,
                    e,
                    after,
                    found,
                    (steps - 1) as nat,
                ),
        }
}

/// Whether cursors are those of a walk: the first after it was taken to the first row, each other
/// after one more move, and whether each move found a row.
#[verifier::opaque]
pub open spec fn is_walk(
    stored: Stored,
    start: MaterializedViewCursor,
    cursors: Seq<MaterializedViewCursor>,
    found: Seq<bool>,
) -> bool {
    &&& cursors.len() > 0
    &&& found.len() == cursors.len()
    &&& exists|steps: nat| #[trigger]
        rewind_ends(stored, start, StorageEvent::Resume, cursors[0], found[0], steps)
    &&& forall|i: int|
        0 <= i < cursors.len() - 1 ==> exists|steps: nat| #[trigger]
            next_ends(
                stored,
                #[trigger] cursors[i],
                StorageEvent::Resume,
                cursors[i + 1],
                found[i + 1],
                steps,
            )
}

proof fn lemma_more_rounds(
    stored: Stored,
    uncommitted: Seq<Change>,
    original: i64,
    target: i64,
    rounds: nat,
    found: Option<RowView>,
)
    requires
        may_end_with(stored, uncommitted, original, target, SeekOp::GT, rounds, found),
    ensures
        may_end_with(stored, uncommitted, original, target, SeekOp::GT, rounds + 1, found),
    decreases rounds,
{
    let op = SeekOp::GT;
    let entry = choose|entry: Seq<Change>| #[trigger]
        is_entry(stored, target, op, entry) && {
            let all = seen(uncommitted, target, op, entry);
            ||| found matches Some(row) && is_found(all, original, op, row)
            ||| found is None && none_found(all, original, op) && (all.len() == 0 || next_target(
                all,
                op,
            ) is None)
            ||| rounds > 0 && none_found(all, original, op) && all.len() > 0 && target_fits(all, op)
                && next_target(all, op) is Some && may_end_with(
                stored,
                uncommitted,
                original,
                next_target(all, op)->Some_0 as i64,
                op,
                (rounds - 1) as nat,
                found,
            )
        };
    let all = seen(uncommitted, target, op, entry);
    let ends = (found matches Some(row) && is_found(all, original, op, row)) || (
    found is None && none_found(all, original, op) && (all.len() == 0 || next_target(all, op)
        is None));
    if !ends {
        lemma_more_rounds(
            stored,
            uncommitted,
            original,
            next_target(all, op)->Some_0 as i64,
            (rounds - 1) as nat,
            found,
        );
    }
    assert(is_entry(stored, target, op, entry));
}

/// Whether an event that a searching cursor is gone on with is true.
spec fn truthful(stored: Stored, c: MaterializedViewCursor, event: StorageEvent) -> bool {
    match event {
        StorageEvent::Entry(e) => is_entry(stored, target_of(c), SeekOp::GT, entry_changes(e)),
        StorageEvent::Sought(SeekResult::NotFound) => is_entry(
            stored,
            target_of(c),
            SeekOp::GT,
            Seq::empty(),
        ),
        _ => true,
    }
}

/// What a search was started for.
spec fn original_of(c: MaterializedViewCursor) -> i64 {
    match c.seek_state {
        SeekState::Seek { original_target_rowid, .. } => original_target_rowid,
        SeekState::Advancing { original_target_rowid, .. } => original_target_rowid,
        _ => 0,
    }
}

/// A search for what comes next.
spec fn searches_on(c: MaterializedViewCursor) -> bool {
    &&& searching(c)
    &&& c.seek_state matches SeekState::Advancing { op, .. } ==> op == SeekOp::GT
}

/// A step of a search that is true to storage: where it ends, it may end so; where it goes on, it may
/// end as the rest does.
proof fn lemma_search_step(
    stored: Stored,
    before: MaterializedViewCursor,
    after: MaterializedViewCursor,
    target: i64,
    event: StorageEvent,
    step: SeekStep,
)
    requires
        searches_on(before),
        before.current_row is None,
        truthful(stored, before, event),
        seek_done(before, after, target, SeekOp::GT, event, step),
    ensures
        match step {
            SeekStep::Done(r) => {
                &&& !searching(after)
                &&& (r == SeekResult::Found) == (after.current_row is Some)
                &&& may_end_with(
                    stored,
                    before.uncommitted@,
                    original_of(before),
                    target_of(before),
                    SeekOp::GT,
                    0,
                    row_at(after.current_row),
                )
            },
            SeekStep::Storage(a) => {
                &&& searches_on(after)
                &&& after.current_row is None
                &&& original_of(after) == original_of(before)
                &&& forall|e: StorageEvent| #[trigger] tells(stored, after, a, e) ==> truthful(
                    stored,
                    after,
                    e,
                )
                &&& forall|rounds: nat, found: Option<RowView>| #[trigger]
                    may_end_with(
                        stored,
                        before.uncommitted@,
                        original_of(before),
                        target_of(after),
                        SeekOp::GT,
                        rounds,
                        found,
                    ) ==> may_end_with(
                        stored,
                        before.uncommitted@,
                        original_of(before),
                        target_of(before),
                        SeekOp::GT,
                        rounds + 1,
                        found,
                    )
            },
        },
{
    let u = before.uncommitted@;
    let t = target_of(before);
    let o = original_of(before);
    let round: Option<Seq<Change>> = match event {
        StorageEvent::Entry(e) => Some(entry_changes(e)),
        StorageEvent::Sought(SeekResult::NotFound) => if before.seek_state is Seek {
            Some(Seq::empty())
        } else {
            None
        },
        _ => None,
    };
    match round {
        Some(entry) => {
            assert(is_entry(stored, t, SeekOp::GT, entry));
            let all = seen(u, t, SeekOp::GT, entry);
            if let SeekStep::Storage(a) = step {
                assert(target_fits(all, SeekOp::GT));
                assert(next_target(all, SeekOp::GT)->Some_0 as i64 == target_of(after));
            }
        },
        None => {
            if let SeekStep::Storage(a) = step {
                assert(target_of(after) == t);
                assert forall|rounds: nat, found: Option<RowView>| #[trigger]
                    may_end_with(stored, u, o, t, SeekOp::GT, rounds, found) implies may_end_with(
                    stored,
                    u,
                    o,
                    t,
                    SeekOp::GT,
                    rounds + 1,
                    found,
                ) by {
                    lemma_more_rounds(stored, u, o, t, rounds, found);
                }
            }
        },
    }
}

/// A move that is in a search ends with what the search may end with.
proof fn lemma_next_search(
    stored: Stored,
    before: MaterializedViewCursor,
    event: StorageEvent,
    after: MaterializedViewCursor,
    found: bool,
    steps: nat,
)
    requires
        !before.is_index_organized(),
        !limit_reached(before),
        searches_on(before),
        before.current_row is None,
        truthful(stored, before, event),
        next_ends(stored, before, event, after, found, steps),
    ensures
        same_view(after, before),
        !searching(after),
        found == (after.current_row is Some),
        after.rows_returned == before.rows_returned + (if found {
            1int
        } else {
            0
        }),
        may_end_with(
            stored,
            before.uncommitted@,
            original_of(before),
            target_of(before),
            SeekOp::GT,
            steps,
            row_at(after.current_row),
        ),
    decreases steps,
{
    let (mid, r) = choose|mid: MaterializedViewCursor, r: MoveStep| #[trigger]
        next_step(before, mid, event, r) && match r {
            MoveStep::Done(f) => f == found && mid == after,
            MoveStep::Storage(a) => steps > 0 && exists|e: StorageEvent| #[trigger]
                tells(stored, mid, a, e) && next_ends(
                    stored,
                    mid,
                    e,
                    after,
                    found,
                    (steps - 1) as nat,
                ),
        };
    let step = choose|step: SeekStep| #[trigger]
        as_move(step) == r && seek_done(before, mid, 0, SeekOp::GT, event, step)
            && mid.rows_returned == before.rows_returned + (if r == MoveStep::Done(true) {
            1int
        } else {
            0
        });
    lemma_search_step(stored, before, mid, 0, event, step);
    match r {
        MoveStep::Done(f) => {
            lemma_at_least_rounds(
                stored,
                before.uncommitted@,
                original_of(before),
                target_of(before),
                0,
                steps,
                row_at(after.current_row),
            );
        },
        MoveStep::Storage(a) => {
            let e = choose|e: StorageEvent| #[trigger]
                tells(stored, mid, a, e) && next_ends(
                    stored,
                    mid,
                    e,
                    after,
                    found,
                    (steps - 1) as nat,
                );
            lemma_next_search(stored, mid, e, after, found, (steps - 1) as nat);
        },
    }
}

proof fn lemma_at_least_rounds(
    stored: Stored,
    uncommitted: Seq<Change>,
    original: i64,
    target: i64,
    less: nat,
    more: nat,
    found: Option<RowView>,
)
    requires
        less <= more,
        may_end_with(stored, uncommitted, original, target, SeekOp::GT, less, found),
    ensures
        may_end_with(stored, uncommitted, original, target, SeekOp::GT, more, found),
    decreases more - less,
{
    if less < more {
        lemma_more_rounds(stored, uncommitted, original, target, less, found);
        lemma_at_least_rounds(stored, uncommitted, original, target, less + 1, more, found);
    }
}

proof fn lemma_rewind_search(
    stored: Stored,
    before: MaterializedViewCursor,
    event: StorageEvent,
    after: MaterializedViewCursor,
    found: bool,
    steps: nat,
) -> (row: Option<RowView>)
    requires
        !before.is_index_organized(),
        searches_on(before),
        before.current_row is None,
        truthful(stored, before, event),
        rewind_ends(stored, before, event, after, found, steps),
    ensures
        same_view(after, before),
        !searching(after),
        begun(after, row, MoveStep::Done(found)),
        may_end_with(
            stored,
            before.uncommitted@,
            original_of(before),
            target_of(before),
            SeekOp::GT,
            steps,
            row,
        ),
    decreases steps,
{
    let (mid, r) = choose|mid: MaterializedViewCursor, r: MoveStep| #[trigger]
        rewind_step(before, mid, event, r) && match r {
            MoveStep::Done(f) => f == found && mid == after,
            MoveStep::Storage(a) => steps > 0 && exists|e: StorageEvent| #[trigger]
                tells(stored, mid, a, e) && rewind_ends(
                    stored,
                    mid,
                    e,
                    after,
                    found,
                    (steps - 1) as nat,
                ),
        };
    let (in_search, step) = choose|in_search: MaterializedViewCursor, step: SeekStep| #[trigger]
        seek_done(before, in_search, i64::MIN, SeekOp::GT, event, step) && match step {
            SeekStep::Storage(a) => r == MoveStep::Storage(a) && mid.current_row
                == in_search.current_row && mid.rows_returned == 0,
            SeekStep::Done(_) => begun(mid, row_at(in_search.current_row), r),
        } && mid.seek_state == in_search.seek_state;
    lemma_search_step(stored, before, in_search, i64::MIN, event, step);
    match step {
        SeekStep::Done(_) => {
            lemma_at_least_rounds(
                stored,
                before.uncommitted@,
                original_of(before),
                target_of(before),
                0,
                steps,
                row_at(in_search.current_row),
            );
            let row = row_at(in_search.current_row);
            assert(may_end_with(
                stored,
                before.uncommitted@,
                original_of(before),
                target_of(before),
                SeekOp::GT,
                steps,
                row,
            ));
            row
        },
        SeekStep::Storage(a) => {
            let e = choose|e: StorageEvent| #[trigger]
                tells(stored, mid, a, e) && rewind_ends(
                    stored,
                    mid,
                    e,
                    after,
                    found,
                    (steps - 1) as nat,
                );
            assert(tells(stored, in_search, a, e));
            let row = lemma_rewind_search(stored, mid, e, after, found, (steps - 1) as nat);
            assert(may_end_with(
                stored,
                before.uncommitted@,
                original_of(before),
                target_of(in_search),
                SeekOp::GT,
                (steps - 1) as nat,
                row,
            ));
            row
        },
    }
}

/// A cursor of a view without ORDER BY whose stored rows are there.
pub open spec fn walkable(stored: Stored, c: MaterializedViewCursor) -> bool {
    &&& !c.is_index_organized()
    &&& !c.full_result_mode
    &&& !searching(c)
    &&& normal(c.uncommitted@)
    &&& forall|id: i64| #[trigger] stored.dom().contains(id) ==> stored[id].1 > 0
}

/// A move from a row comes to the first row after it that the view holds as the transaction sees it,
/// and to none only where there is none or the LIMIT of the view has been reached.
pub proof fn law_a_move_comes_to_the_next_row(
    stored: Stored,
    before: MaterializedViewCursor,
    after: MaterializedViewCursor,
    found: bool,
    steps: nat,
)
    requires
        walkable(stored, before),
        next_ends(stored, before, StorageEvent::Resume, after, found, steps),
    ensures
        same_view(after, before),
        walkable(stored, after),
        found == (after.current_row is Some),
        after.rows_returned == before.rows_returned + (if found {
            1int
        } else {
            0
        }),
        limit_reached(before) ==> !found,
        !limit_reached(before) ==> match (row_at(before.current_row), row_at(after.current_row)) {
            (None, next) => next is None,
            (Some(row), Some(next)) => is_first(
                stored,
                before.uncommitted@,
                row.rowid,
                SeekOp::GT,
                next,
            ),
            (Some(row), None) => forall|other: RowView| #[trigger]
                present(stored, before.uncommitted@, other) != 0 ==> !(other.rowid > row.rowid),
        },
{
    let (mid, r) = choose|mid: MaterializedViewCursor, r: MoveStep| #[trigger]
        next_step(before, mid, StorageEvent::Resume, r) && match r {
            MoveStep::Done(f) => f == found && mid == after,
            MoveStep::Storage(a) => steps > 0 && exists|e: StorageEvent| #[trigger]
                tells(stored, mid, a, e) && next_ends(
                    stored,
                    mid,
                    e,
                    after,
                    found,
                    (steps - 1) as nat,
                ),
        };
    if !limit_reached(before) {
        if let Some(row) = row_at(before.current_row) {
            let a = r->Storage_0;
            let e = choose|e: StorageEvent| #[trigger]
                tells(stored, mid, a, e) && next_ends(
                    stored,
                    mid,
                    e,
                    after,
                    found,
                    (steps - 1) as nat,
                );
            lemma_next_search(stored, mid, e, after, found, (steps - 1) as nat);
            law_a_search_finds_the_first_row(
                stored,
                before.uncommitted@,
                row.rowid,
                SeekOp::GT,
                (steps - 1) as nat,
                row_at(after.current_row),
            );
        }
    }
}

/// A rewind comes to the first row that the view holds as the transaction sees it. A LIMIT that lets
/// nothing through leaves the cursor at none.
pub proof fn law_a_rewind_comes_to_the_first_row(
    stored: Stored,
    before: MaterializedViewCursor,
    after: MaterializedViewCursor,
    found: bool,
    steps: nat,
) -> (first: Option<RowView>)
    requires
        walkable(stored, before),
        rewind_ends(stored, before, StorageEvent::Resume, after, found, steps),
    ensures
        same_view(after, before),
        walkable(stored, after),
        begun(after, first, MoveStep::Done(found)),
        match first {
            Some(row) => is_first(stored, before.uncommitted@, i64::MIN, SeekOp::GT, row),
            None => forall|other: RowView| #[trigger]
                present(stored, before.uncommitted@, other) != 0 ==> !(other.rowid > i64::MIN),
        },
{
    let (mid, r) = choose|mid: MaterializedViewCursor, r: MoveStep| #[trigger]
        rewind_step(before, mid, StorageEvent::Resume, r) && match r {
            MoveStep::Done(f) => f == found && mid == after,
            MoveStep::Storage(a) => steps > 0 && exists|e: StorageEvent| #[trigger]
                tells(stored, mid, a, e) && rewind_ends(
                    stored,
                    mid,
                    e,
                    after,
                    found,
                    (steps - 1) as nat,
                ),
        };
    let a = r->Storage_0;
    let e = choose|e: StorageEvent| #[trigger]
        tells(stored, mid, a, e) && rewind_ends(
            stored,
            mid,
            e,
            after,
            found,
            (steps - 1) as nat,
        );
    let first = lemma_rewind_search(stored, mid, e, after, found, (steps - 1) as nat);
    law_a_search_finds_the_first_row(
        stored,
        before.uncommitted@,
        i64::MIN,
        SeekOp::GT,
        (steps - 1) as nat,
        first,
    );
    first
}

/// Whether rows are there and stand by growing row ids, none at the least.
pub open spec fn growing(stored: Stored, uncommitted: Seq<Change>, rows: Seq<RowView>) -> bool {
    &&& forall|i: int|
        0 <= i < rows.len() ==> present(stored, uncommitted, #[trigger] rows[i]) != 0
            && rows[i].rowid > i64::MIN
    &&& forall|i: int, j: int|
        0 <= i < j < rows.len() ==> (#[trigger] rows[i]).rowid < (#[trigger] rows[j]).rowid
}

proof fn lemma_walk(
    stored: Stored,
    start: MaterializedViewCursor,
    cursors: Seq<MaterializedViewCursor>,
    found: Seq<bool>,
    rows: Seq<RowView>,
    n: i64,
    i: int,
)
    requires
        walkable(stored, start),
        start.limit == Some(n),
        n >= 1,
        growing(stored, start.uncommitted@, rows),
        rows.len() > n,
        is_walk(stored, start, cursors, found),
        0 <= i < cursors.len(),
    ensures
        walkable(stored, cursors[i]),
        same_view(cursors[i], start),
        found[i] == (i < n),
        found[i] == (cursors[i].current_row is Some),
        cursors[i].rows_returned == (if i < n {
            i + 1
        } else {
            n as int
        }),
        i < n ==> (row_at(cursors[i].current_row) matches Some(row) && row.rowid
            <= rows[i].rowid),
    decreases i,
{
    reveal(is_walk);
    let u = start.uncommitted@;
    if i == 0 {
        let steps = choose|steps: nat| #[trigger]
            rewind_ends(stored, start, StorageEvent::Resume, cursors[0], found[0], steps);
        let first = law_a_rewind_comes_to_the_first_row(
            stored,
            start,
            cursors[0],
            found[0],
            steps,
        );
        assert(present(stored, u, rows[0]) != 0);
    } else {
        lemma_walk(stored, start, cursors, found, rows, n, i - 1);
        let before = cursors[i - 1];
        assert(cursors[i - 1 + 1] == cursors[i]);
        let steps = choose|steps: nat| #[trigger]
            next_ends(stored, before, StorageEvent::Resume, cursors[i], found[i], steps);
        law_a_move_comes_to_the_next_row(stored, before, cursors[i], found[i], steps);
        if i < n {
            let row = row_at(before.current_row)->Some_0;
            assert(present(stored, u, rows[i]) != 0);
            assert(rows[i - 1].rowid < rows[i].rowid);
        }
    }
}

/// A view with a LIMIT shows as many rows as the LIMIT says, where it holds more: taking a cursor to
/// the first row and asking for the next one finds a row that many times, and then none.
pub proof fn law_a_limit_shows_exactly_so_many_rows(
    stored: Stored,
    start: MaterializedViewCursor,
    cursors: Seq<MaterializedViewCursor>,
    found: Seq<bool>,
    rows: Seq<RowView>,
    n: i64,
)
    requires
        walkable(stored, start),
        start.limit == Some(n),
        n >= 1,
        growing(stored, start.uncommitted@, rows),
        rows.len() > n,
        is_walk(stored, start, cursors, found),
    ensures
        forall|i: int| 0 <= i < cursors.len() ==> (#[trigger] found[i]) == (i < n),
        forall|i: int|
            0 <= i < cursors.len() ==> ((#[trigger] cursors[i]).current_row is Some) == (i < n),
{
    assert forall|i: int| 0 <= i < cursors.len() implies (#[trigger] found[i]) == (i < n) by {
        lemma_walk(stored, start, cursors, found, rows, n, i);
    }
    assert forall|i: int| 0 <= i < cursors.len() implies ((
    #[trigger] cursors[i]).current_row is Some) == (i < n) by {
        lemma_walk(stored, start, cursors, found, rows, n, i);
    }
}

/// A search that storage has left between two leaves is gone on with by moving storage on; storage is
/// not searched again, however often the search is asked to go on before storage has moved.
pub proof fn law_a_resumed_search_moves_on(
    start: MaterializedViewCursor,
    begun: MaterializedViewCursor,
    left: MaterializedViewCursor,
    asked: MaterializedViewCursor,
    moved: MaterializedViewCursor,
    done: MaterializedViewCursor,
    target: i64,
    op: SeekOp,
    entry: StorageEvent,
    steps: Seq<SeekStep>,
)
    requires
        !searching(start),
        !start.full_result_mode,
        start.uncommitted@.len() == 0,
        begun.uncommitted == start.uncommitted,
        left.uncommitted == start.uncommitted,
        asked.uncommitted == start.uncommitted,
        moved.uncommitted == start.uncommitted,
        steps.len() == 5,
        entry matches StorageEvent::Entry(Some(e)) && e.1 > 0 && op.admits(e.0@.rowid, target),
        seek_done(start, begun, target, op, StorageEvent::Resume, steps[0]),
        seek_done(
            begun,
            left,
            target,
            op,
            StorageEvent::Sought(SeekResult::TryAdvance),
            steps[1],
        ),
        seek_done(left, asked, target, op, StorageEvent::Resume, steps[2]),
        seek_done(asked, moved, target, op, StorageEvent::Moved, steps[3]),
        seek_done(moved, done, target, op, entry, steps[4]),
    ensures
        steps[0] == SeekStep::Storage(StorageAction::Seek { target, op }),
        steps[1] == SeekStep::Storage(advance_action(op)),
        steps[2] == steps[1],
        asked.seek_state == left.seek_state,
        steps[3] == SeekStep::Storage(StorageAction::Read),
        steps[4] == SeekStep::Done(SeekResult::Found),
        row_at(done.current_row) == (match entry {
            StorageEvent::Entry(e) => entry_row(e),
            _ => None,
        }),
{
    let e = match entry {
        StorageEvent::Entry(Some(e)) => e,
        _ => arbitrary(),
    };
    let all = seen(start.uncommitted@, target, op, entry_changes(Some(e)));
    let one = seq![(e.0@, e.1 as int)];
    lemma_none_sought(start.uncommitted@, target, op);
    assert(all =~= one);
    assert forall|row: RowView| #[trigger] weight(all, row) == (if row == e.0@ {
        e.1 as int
    } else {
        0
    }) by {
        assert(one.drop_last() =~= Seq::<Change>::empty());
        reveal_with_fuel(weight, 2);
    }
    assert(weight(all, e.0@) != 0);
}

proof fn lemma_none_sought(changes: Seq<Change>, target: i64, op: SeekOp)
    requires
        changes.len() == 0,
    ensures
        sought(changes, target, op) == Seq::<Change>::empty(),
{
}

// Views with ORDER BY.

/// Whether storage does what it is asked for and tells the truth, where it holds entries in the order
/// of a view and goes from standing at `at` to standing at `now`.
pub open spec fn lists_on(
    entries: Seq<Change>,
    at: int,
    action: StorageAction,
    event: StorageEvent,
    now: int,
) -> bool {
    match (action, event) {
        (StorageAction::Rewind, StorageEvent::Resume) => now == at,
        (StorageAction::Next, StorageEvent::Resume) => now == at,
        (StorageAction::Rewind, StorageEvent::Moved) => now == 0,
        (StorageAction::Next, StorageEvent::Moved) => now == at + 1,
        (StorageAction::Read, StorageEvent::Entry(e)) => now == at && entry_changes(e) == (if 0 <= at
            < entries.len() {
            seq![entries[at]]
        } else {
            Seq::empty()
        }),
        _ => false,
    }
}

/// Whether a move to the next row of a view with ORDER BY, gone on with an event, may end with the
/// cursor `after` and storage standing at `end`, within some steps.
pub open spec fn ordered_next_ends(
    entries: Seq<Change>,
    at: int,
    before: MaterializedViewCursor,
    event: StorageEvent,
    after: MaterializedViewCursor,
    end: int,
    found: bool,
    steps: nat,
) -> bool
    decreases steps,
{
    exists|mid: MaterializedViewCursor, r: MoveStep| #[trigger]
        next_step(before, mid, event, r) && match r {
            MoveStep::Done(f) => f == found && mid == after && at == end,
            MoveStep::Storage(a) => steps > 0 && exists|e: StorageEvent, now: int| #[trigger]
                lists_on(entries, at, a, e, now) && ordered_next_ends(
                    entries,
                    now,
                    mid,
                    e,
                    after,
                    end,
                    found,
                    (steps - 1) as nat,
                ),
        }
}

/// Whether a move to the first row of a view with ORDER BY, gone on with an event, may end with the
/// cursor `after` and storage standing at `end`, within some steps.
pub open spec fn ordered_rewind_ends(
    entries: Seq<Change>,
    at: int,
    before: MaterializedViewCursor,
    event: StorageEvent,
    after: MaterializedViewCursor,
    end: int,
    found: bool,
    steps: nat,
) -> bool
    decreases steps,
{
    exists|mid: MaterializedViewCursor, r: MoveStep| #[trigger]
        rewind_step(before, mid, event, r) && match r {
            MoveStep::Done(f) => f == found && mid == after && at == end,
            MoveStep::Storage(a) => steps > 0 && exists|e: StorageEvent, now: int| #[trigger]
                lists_on(entries, at, a, e, now) && ordered_rewind_ends(
                    entries,
                    now,
                    mid,
                    e,
                    after,
                    end,
                    found,
                    (steps - 1) as nat,
                ),
        }
}

/// Whether cursors are those of a walk over a view with ORDER BY: the first after it was taken to the
/// first row, each other after one more move; where storage stood, and whether each move found a row.
#[verifier::opaque]
pub open spec fn is_ordered_walk(
    entries: Seq<Change>,
    at: int,
    start: MaterializedViewCursor,
    cursors: Seq<MaterializedViewCursor>,
    places: Seq<int>,
    found: Seq<bool>,
) -> bool {
    &&& cursors.len() > 0
    &&& found.len() == cursors.len()
    &&& places.len() == cursors.len()
    &&& exists|steps: nat| #[trigger]
        ordered_rewind_ends(
            entries,
            at,
            start,
            StorageEvent::Resume,
            cursors[0],
            places[0],
            found[0],
            steps,
        )
    &&& forall|i: int|
        0 <= i < cursors.len() - 1 ==> exists|steps: nat| #[trigger]
            ordered_next_ends(
                entries,
                places[i],
                #[trigger] cursors[i],
                StorageEvent::Resume,
                cursors[i + 1],
                places[i + 1],
                found[i + 1],
                steps,
            )
}

/// The rows of entries.
pub open spec fn entry_rows(entries: Seq<Change>) -> Seq<RowView> {
    entries.map_values(|c: Change| c.0)
}

/// What a walk shows of rows: the row at its place, unless the LIMIT of the view has been reached
/// before.
pub open spec fn shown_at(c: MaterializedViewCursor, rows: Seq<RowView>, i: int) -> Option<RowView> {
    if !c.full_result_mode && (c.limit matches Some(l) && i >= l) {
        None
    } else {
        nth(rows, i)
    }
}

/// How many rows have been shown once a walk has come so far.
spec fn shown_by(c: MaterializedViewCursor, rows: Seq<RowView>, i: int) -> int {
    let n = if i + 1 < rows.len() {
        i + 1
    } else {
        rows.len() as int
    };
    match c.limit {
        Some(l) => if c.full_result_mode || n <= l {
            n
        } else if l < 0 {
            0
        } else {
            l as int
        },
        None => n,
    }
}

/// What is known while storage is read for a listing.
spec fn listing_so_far(
    entries: Seq<Change>,
    at: int,
    c: MaterializedViewCursor,
    event: StorageEvent,
) -> bool {
    match event {
        StorageEvent::Resume => true,
        StorageEvent::Moved => 0 <= at <= entries.len() && collected_of(c) == entries.take(at),
        StorageEvent::Entry(e) => {
            &&& 0 <= at <= entries.len()
            &&& collected_of(c) == entries.take(at)
            &&& entry_changes(e) == (if at < entries.len() {
                seq![entries[at]]
            } else {
                Seq::empty()
            })
        },
        _ => false,
    }
}

proof fn lemma_ordered_rewind_changed(
    entries: Seq<Change>,
    at: int,
    before: MaterializedViewCursor,
    event: StorageEvent,
    after: MaterializedViewCursor,
    end: int,
    found: bool,
    steps: nat,
)
    requires
        before.is_index_organized(),
        !unchanged(before),
        before.sorted_index_snapshot is None,
        before.full_result_mode || listing_so_far(entries, at, before, event),
        ordered_rewind_ends(entries, at, before, event, after, end, found, steps),
    ensures
        same_view(after, before),
        after.sorted_index_snapshot is Some,
        lists(before, entries, row_list(after.sorted_index_snapshot->Some_0@)),
        at_listing(after, MoveStep::Done(found)),
        !before.full_result_mode ==> after.listed@ == entries,
    decreases steps,
{
    let (mid, r) = choose|mid: MaterializedViewCursor, r: MoveStep| #[trigger]
        rewind_step(before, mid, event, r) && match r {
            MoveStep::Done(f) => f == found && mid == after && at == end,
            MoveStep::Storage(a) => steps > 0 && exists|e: StorageEvent, now: int| #[trigger]
                lists_on(entries, at, a, e, now) && ordered_rewind_ends(
                    entries,
                    now,
                    mid,
                    e,
                    after,
                    end,
                    found,
                    (steps - 1) as nat,
                ),
        };
    match r {
        MoveStep::Done(_) => {
            let u = before.uncommitted@;
            if before.full_result_mode {
                assert(merged(collected_of(before), u, true) == merged(entries, u, true));
            } else {
                assert(entry_changes(None).len() == 0);
                assert(at == entries.len());
                assert(entries.take(at) =~= entries);
            }
        },
        MoveStep::Storage(a) => {
            let (e, now) = choose|e: StorageEvent, now: int| #[trigger]
                lists_on(entries, at, a, e, now) && ordered_rewind_ends(
                    entries,
                    now,
                    mid,
                    e,
                    after,
                    end,
                    found,
                    (steps - 1) as nat,
                );
            if let StorageEvent::Entry(Some(x)) = event {
                assert(!before.full_result_mode);
                assert(entry_changes(Some(x)).len() == 1);
                assert(entry_changes(Some(x))[0] == (x.0@, x.1 as int));
                assert(at < entries.len());
                assert(seq![entries[at]][0] == entries[at]);
                assert(entries.take(at).push(entries[at]) =~= entries.take(at + 1));
            }
            assert(entries.take(0) =~= Seq::<Change>::empty());
            lemma_ordered_rewind_changed(
                entries,
                now,
                mid,
                e,
                after,
                end,
                found,
                (steps - 1) as nat,
            );
        },
    }
}

proof fn lemma_ordered_rewind_unchanged(
    entries: Seq<Change>,
    at: int,
    before: MaterializedViewCursor,
    event: StorageEvent,
    after: MaterializedViewCursor,
    end: int,
    found: bool,
    steps: nat,
)
    requires
        before.is_index_organized(),
        unchanged(before),
        event is Resume || event is Moved && at == 0 || (event matches StorageEvent::Entry(e) && at
            == 0 && entry_row(e) == nth(entry_rows(entries), 0)),
        ordered_rewind_ends(entries, at, before, event, after, end, found, steps),
    ensures
        same_view(after, before),
        after.sorted_index_snapshot == before.sorted_index_snapshot,
        begun(after, nth(entry_rows(entries), 0), MoveStep::Done(found)),
        end == 0,
    decreases steps,
{
    let (mid, r) = choose|mid: MaterializedViewCursor, r: MoveStep| #[trigger]
        rewind_step(before, mid, event, r) && match r {
            MoveStep::Done(f) => f == found && mid == after && at == end,
            MoveStep::Storage(a) => steps > 0 && exists|e: StorageEvent, now: int| #[trigger]
                lists_on(entries, at, a, e, now) && ordered_rewind_ends(
                    entries,
                    now,
                    mid,
                    e,
                    after,
                    end,
                    found,
                    (steps - 1) as nat,
                ),
        };
    if let MoveStep::Storage(a) = r {
        let (e, now) = choose|e: StorageEvent, now: int| #[trigger]
            lists_on(entries, at, a, e, now) && ordered_rewind_ends(
                entries,
                now,
                mid,
                e,
                after,
                end,
                found,
                (steps - 1) as nat,
            );
        if let StorageEvent::Entry(x) = e {
            lemma_entry(entries, at, x);
        }
        lemma_ordered_rewind_unchanged(entries, now, mid, e, after, end, found, (steps - 1) as nat);
    }
}

proof fn lemma_entry(entries: Seq<Change>, at: int, e: Option<(HashableRow, isize)>)
    requires
        entry_changes(e) == (if 0 <= at < entries.len() {
            seq![entries[at]]
        } else {
            Seq::empty()
        }),
    ensures
        entry_row(e) == nth(entry_rows(entries), at),
{
    match e {
        Some(x) => {
            assert(entry_changes(e).len() == 1);
            assert(entry_changes(e)[0] == (x.0@, x.1 as int));
            assert(seq![entries[at]][0] == entries[at]);
        },
        None => {
            assert(entry_changes(e).len() == 0);
        },
    }
}

proof fn lemma_ordered_next_unchanged(
    entries: Seq<Change>,
    at: int,
    before: MaterializedViewCursor,
    event: StorageEvent,
    after: MaterializedViewCursor,
    end: int,
    found: bool,
    steps: nat,
    goal: int,
)
    requires
        before.is_index_organized(),
        !limit_reached(before),
        before.sorted_index_snapshot is None,
        event is Resume && goal == at + 1 || event is Moved && goal == at || (
        event matches StorageEvent::Entry(e) && goal == at && entry_row(e) == nth(
            entry_rows(entries),
            at,
        )),
        ordered_next_ends(entries, at, before, event, after, end, found, steps),
    ensures
        same_view(after, before),
        after.sorted_index_snapshot is None,
        end == goal,
        found == (after.current_row is Some),
        row_at(after.current_row) == nth(entry_rows(entries), goal),
        after.rows_returned == before.rows_returned + (if found {
            1int
        } else {
            0
        }),
    decreases steps,
{
    let (mid, r) = choose|mid: MaterializedViewCursor, r: MoveStep| #[trigger]
        next_step(before, mid, event, r) && match r {
            MoveStep::Done(f) => f == found && mid == after && at == end,
            MoveStep::Storage(a) => steps > 0 && exists|e: StorageEvent, now: int| #[trigger]
                lists_on(entries, at, a, e, now) && ordered_next_ends(
                    entries,
                    now,
                    mid,
                    e,
                    after,
                    end,
                    found,
                    (steps - 1) as nat,
                ),
        };
    if let MoveStep::Storage(a) = r {
        let (e, now) = choose|e: StorageEvent, now: int| #[trigger]
            lists_on(entries, at, a, e, now) && ordered_next_ends(
                entries,
                now,
                mid,
                e,
                after,
                end,
                found,
                (steps - 1) as nat,
            );
        if let StorageEvent::Entry(x) = e {
            lemma_entry(entries, at, x);
        }
        lemma_ordered_next_unchanged(
            entries,
            now,
            mid,
            e,
            after,
            end,
            found,
            (steps - 1) as nat,
            goal,
        );
    }
}

/// The rows that a walk over a view with ORDER BY is made over: what storage holds, or the listing of
/// the view with the changes of the transaction.
pub open spec fn walked_over(entries: Seq<Change>, first: MaterializedViewCursor) -> Seq<RowView> {
    match first.sorted_index_snapshot {
        Some(rows) => row_list(rows@),
        None => entry_rows(entries),
    }
}

/// Whether what a cursor has listed of a view, if anything, was listed of what storage holds.
pub open spec fn up_to_date(entries: Seq<Change>, c: MaterializedViewCursor) -> bool {
    &&& c.wf()
    &&& c.sorted_index_snapshot is Some && !c.full_result_mode ==> c.listed@ == entries
}

proof fn lemma_ordered_rewind_listed(
    entries: Seq<Change>,
    at: int,
    before: MaterializedViewCursor,
    after: MaterializedViewCursor,
    end: int,
    found: bool,
    steps: nat,
)
    requires
        before.is_index_organized(),
        before.sorted_index_snapshot is Some,
        up_to_date(entries, before),
        ordered_rewind_ends(
            entries,
            at,
            before,
            StorageEvent::Resume,
            after,
            end,
            found,
            steps,
        ),
    ensures
        same_view(after, before),
        after.sorted_index_snapshot is Some,
        lists(before, entries, row_list(after.sorted_index_snapshot->Some_0@)),
        at_listing(after, MoveStep::Done(found)),
        !before.full_result_mode ==> after.listed@ == entries,
{
    let (mid, r) = choose|mid: MaterializedViewCursor, r: MoveStep| #[trigger]
        rewind_step(before, mid, StorageEvent::Resume, r) && match r {
            MoveStep::Done(f) => f == found && mid == after && at == end,
            MoveStep::Storage(a) => steps > 0 && exists|e: StorageEvent, now: int| #[trigger]
                lists_on(entries, at, a, e, now) && ordered_rewind_ends(
                    entries,
                    now,
                    mid,
                    e,
                    after,
                    end,
                    found,
                    (steps - 1) as nat,
                ),
        };
    assert(r is Done);
    let u = before.uncommitted@;
    if before.full_result_mode {
        assert(merged(before.listed@, u, true) == merged(entries, u, true));
    }
}

proof fn lemma_ordered_walk(
    entries: Seq<Change>,
    at: int,
    start: MaterializedViewCursor,
    cursors: Seq<MaterializedViewCursor>,
    places: Seq<int>,
    found: Seq<bool>,
    i: int,
)
    requires
        start.is_index_organized(),
        up_to_date(entries, start),
        is_ordered_walk(entries, at, start, cursors, places, found),
        0 <= i < cursors.len(),
    ensures
        ({
            let rows = walked_over(entries, cursors[0]);
            let c = cursors[i];
            &&& same_view(c, start)
            &&& c.sorted_index_snapshot == cursors[0].sorted_index_snapshot
            &&& c.sorted_index_snapshot is Some && !c.full_result_mode ==> c.listed@ == entries
            &&& unchanged(start) == (c.sorted_index_snapshot is None)
            &&& !unchanged(start) ==> lists(start, entries, rows)
            &&& found[i] == (c.current_row is Some)
            &&& row_at(c.current_row) == shown_at(start, rows, i)
            &&& c.rows_returned == shown_by(start, rows, i)
            &&& !(start.limit matches Some(l) && !start.full_result_mode && i >= l && rows.len()
                >= l) ==> (if unchanged(start) {
                places[i] == i
            } else {
                c.sorted_index_pos == (if i + 1 < rows.len() {
                    i + 1
                } else {
                    rows.len() as int
                })
            })
        }),
    decreases i,
{
    reveal(is_ordered_walk);
    let rows = walked_over(entries, cursors[0]);
    if i == 0 {
        let steps = choose|steps: nat| #[trigger]
            ordered_rewind_ends(
                entries,
                at,
                start,
                StorageEvent::Resume,
                cursors[0],
                places[0],
                found[0],
                steps,
            );
        if unchanged(start) {
            lemma_ordered_rewind_unchanged(
                entries,
                at,
                start,
                StorageEvent::Resume,
                cursors[0],
                places[0],
                found[0],
                steps,
            );
        } else if start.sorted_index_snapshot is Some {
            lemma_ordered_rewind_listed(
                entries,
                at,
                start,
                cursors[0],
                places[0],
                found[0],
                steps,
            );
        } else {
            lemma_ordered_rewind_changed(
                entries,
                at,
                start,
                StorageEvent::Resume,
                cursors[0],
                places[0],
                found[0],
                steps,
            );
        }
    } else {
        lemma_ordered_walk(entries, at, start, cursors, places, found, i - 1);
        let before = cursors[i - 1];
        let after = cursors[i];
        assert(cursors[i - 1 + 1] == cursors[i]);
        let steps = choose|steps: nat| #[trigger]
            ordered_next_ends(
                entries,
                places[i - 1],
                before,
                StorageEvent::Resume,
                after,
                places[i],
                found[i],
                steps,
            );
        if limit_reached(before) || before.sorted_index_snapshot is Some {
            let (mid, r) = choose|mid: MaterializedViewCursor, r: MoveStep| #[trigger]
                next_step(before, mid, StorageEvent::Resume, r) && match r {
                    MoveStep::Done(f) => f == found[i] && mid == after && places[i - 1]
                        == places[i],
                    MoveStep::Storage(a) => steps > 0 && exists|e: StorageEvent, now: int|
                     #[trigger]
                        lists_on(entries, places[i - 1], a, e, now) && ordered_next_ends(
                            entries,
                            now,
                            mid,
                            e,
                            after,
                            places[i],
                            found[i],
                            (steps - 1) as nat,
                        ),
                };
            assert(mid == after);
        } else {
            lemma_ordered_next_unchanged(
                entries,
                places[i - 1],
                before,
                StorageEvent::Resume,
                after,
                places[i],
                found[i],
                steps,
                places[i - 1] + 1,
            );
        }
    }
}

/// A walk over a view with ORDER BY shows its rows in their order, one after the other, up to the
/// LIMIT of the view, and then none. Where the transaction has changed nothing these are the rows that
/// storage holds, in the order in which it holds them; otherwise they are the rows whose stored and
/// uncommitted weights add up to something positive, as often as that says, in the order of the view,
/// those that the sort columns do not tell apart by their row ids. A walk can begin wherever another
/// has come to: what a cursor has listed stays what storage holds.
pub proof fn law_an_ordered_walk_shows_the_rows_in_order(
    entries: Seq<Change>,
    at: int,
    start: MaterializedViewCursor,
    cursors: Seq<MaterializedViewCursor>,
    places: Seq<int>,
    found: Seq<bool>,
    i: int,
)
    requires
        start.is_index_organized(),
        up_to_date(entries, start),
        is_ordered_walk(entries, at, start, cursors, places, found),
        0 <= i < cursors.len(),
    ensures
        ({
            let rows = walked_over(entries, cursors[0]);
            &&& row_at(cursors[i].current_row) == shown_at(start, rows, i)
            &&& found[i] == (shown_at(start, rows, i) is Some)
            &&& unchanged(start) ==> rows == entry_rows(entries)
            &&& !unchanged(start) ==> lists(start, entries, rows)
            &&& cursors[i].wf() ==> up_to_date(entries, cursors[i])
        }),
{
    lemma_ordered_walk(entries, at, start, cursors, places, found, i);
}

/// A view with ORDER BY and a LIMIT shows as many rows as the LIMIT says, where there are more.
pub proof fn law_a_limit_shows_exactly_so_many_rows_in_order(
    entries: Seq<Change>,
    at: int,
    start: MaterializedViewCursor,
    cursors: Seq<MaterializedViewCursor>,
    places: Seq<int>,
    found: Seq<bool>,
    n: i64,
)
    requires
        start.is_index_organized(),
        up_to_date(entries, start),
        !start.full_result_mode,
        start.limit == Some(n),
        n >= 1,
        is_ordered_walk(entries, at, start, cursors, places, found),
        cursors.len() > 0,
        walked_over(entries, cursors[0]).len() > n,
    ensures
        forall|i: int| 0 <= i < cursors.len() ==> (#[trigger] found[i]) == (i < n),
        forall|i: int|
            0 <= i < cursors.len() ==> ((#[trigger] cursors[i]).current_row is Some) == (i < n),
{
    assert forall|i: int| 0 <= i < cursors.len() implies (#[trigger] found[i]) == (i < n) by {
        lemma_ordered_walk(entries, at, start, cursors, places, found, i);
    }
    assert forall|i: int| 0 <= i < cursors.len() implies ((
    #[trigger] cursors[i]).current_row is Some) == (i < n) by {
        lemma_ordered_walk(entries, at, start, cursors, places, found, i);
    }
}

} // verus!
