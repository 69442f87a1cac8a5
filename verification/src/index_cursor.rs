//! Reading an index on a view inside a transaction.
//!
//! The entries that the index has stored are merged with those that the changes of the transaction
//! add to it and take from it. Entries are the key columns followed by the row id.

use vstd::prelude::*;

use crate::display::{value_text, write_value};
use crate::error::{ErrorView, LimboError};
use crate::layout::rowid_of;
use crate::numbers::Relation;
use crate::order::{
    chained, compare_entries, entry_relation, law_entries_are_totally_ordered,
    law_equal_entries_agree_in_every_column, law_values_stand_by_their_kinds, value_relation,
    KeyInfo,
};
use crate::overlay::{RowKeyZSet, SeekOp};
use crate::seqs::{lemma_occurrences_insert, occurrences};
use crate::text::{decimal, decimal_usize};
use crate::value::{
    copy_values, data, int_datum, Datum, HashableRow, Numeric, NumericView, RowView, Value,
};
use crate::write_row::SeekResult;
use crate::zset::Change;

verus! {

// Entries.

/// What some entries hold.
pub open spec fn entry_views(entries: Seq<Vec<Value>>) -> Seq<Seq<Datum>> {
    entries.map_values(|e: Vec<Value>| data(e@))
}

/// How two entries stand to each other.
pub open spec fn entries_relation(info: Seq<KeyInfo>, a: Seq<Datum>, b: Seq<Datum>) -> Relation {
    entry_relation(info, a, b, usize::MAX as int)
}

/// Whether entries have one length.
pub open spec fn even(entries: Seq<Seq<Datum>>, len: nat) -> bool {
    forall|i: int| 0 <= i < entries.len() ==> (#[trigger] entries[i]).len() == len
}

/// Whether entries stand in the order of an index.
pub open spec fn entries_in_order(info: Seq<KeyInfo>, entries: Seq<Seq<Datum>>) -> bool {
    forall|i: int, j: int|
        0 <= i < j < entries.len() ==> entries_relation(
            info,
            #[trigger] entries[i],
            #[trigger] entries[j],
        ) != Relation::Greater
}

/// Whether entries are those of another list, each as often.
pub open spec fn same_entries(a: Seq<Seq<Datum>>, b: Seq<Seq<Datum>>) -> bool {
    forall|e: Seq<Datum>| #[trigger] occurrences(a, e) == occurrences(b, e)
}

pub proof fn lemma_entries_chain(
    info: Seq<KeyInfo>,
    a: Seq<Datum>,
    b: Seq<Datum>,
    c: Seq<Datum>,
)
    requires
        a.len() == b.len(),
        b.len() == c.len(),
    ensures
        entries_relation(info, a, a) == Relation::Equal,
        entries_relation(info, b, a) == entries_relation(info, a, b).flipped(),
        chained(
            entries_relation(info, a, b),
            entries_relation(info, b, c),
            entries_relation(info, a, c),
        ),
{
    law_entries_are_totally_ordered(info, a, b, c, usize::MAX as int);
}

proof fn lemma_insert_entry(
    info: Seq<KeyInfo>,
    s: Seq<Seq<Datum>>,
    p: int,
    x: Seq<Datum>,
)
    requires
        0 <= p <= s.len(),
        even(s, x.len()),
        entries_in_order(info, s),
        p > 0 ==> entries_relation(info, s[p - 1], x) != Relation::Greater,
        forall|k: int|
            p <= k < s.len() ==> entries_relation(info, #[trigger] s[k], x) == Relation::Greater,
    ensures
        entries_in_order(info, s.insert(p, x)),
        even(s.insert(p, x), x.len()),
{
    let t = s.insert(p, x);
    assert forall|i: int, j: int| 0 <= i < j < t.len() implies entries_relation(
        info,
        #[trigger] t[i],
        #[trigger] t[j],
    ) != Relation::Greater by {
        let oi = if i < p {
            i
        } else {
            i - 1
        };
        let oj = if j < p {
            j
        } else {
            j - 1
        };
        if i != p && j != p {
            assert(t[i] == s[oi] && t[j] == s[oj]);
        } else if i == p {
            assert(t[j] == s[oj]);
            lemma_entries_chain(info, s[oj], x, x);
        } else {
            assert(t[i] == s[i]);
            if i < p - 1 {
                assert(entries_relation(info, s[i], s[p - 1]) != Relation::Greater);
                lemma_entries_chain(info, s[i], s[p - 1], x);
            }
        }
    }
    assert forall|i: int| 0 <= i < t.len() implies (#[trigger] t[i]).len() == x.len() by {
        if i < p {
            assert(t[i] == s[i]);
        } else if i > p {
            assert(t[i] == s[i - 1]);
        }
    }
}

/// Puts an entry in its place among entries that stand in order.
fn insert_entry(entries: &mut Vec<Vec<Value>>, entry: Vec<Value>, info: &Vec<KeyInfo>)
    requires
        even(entry_views(old(entries)@), entry@.len()),
        entries_in_order(info@, entry_views(old(entries)@)),
    ensures
        even(entry_views(final(entries)@), entry@.len()),
        entries_in_order(info@, entry_views(final(entries)@)),
        forall|e: Seq<Datum>| #[trigger]
            occurrences(entry_views(final(entries)@), e) == occurrences(
                entry_views(old(entries)@),
                e,
            ) + (if e == data(entry@) {
                1int
            } else {
                0
            }),
{
    let ghost views = entry_views(entries@);
    let ghost x = data(entry@);
    let mut p: usize = entries.len();
    while p > 0 && compare_entries(info, &entries[p - 1], &entry, usize::MAX) == Relation::Greater
        invariant
            p <= entries@.len(),
            views == entry_views(entries@),
            *entries == *old(entries),
            x == data(entry@),
            forall|k: int|
                p <= k < views.len() ==> entries_relation(info@, #[trigger] views[k], x)
                    == Relation::Greater,
        decreases p,
    {
        assert(views[p - 1] == data(entries@[p - 1]@));
        p -= 1;
    }
    proof {
        if p > 0 {
            assert(views[p - 1] == data(entries@[p - 1]@));
        }
    }
    entries.insert(p, entry);
    proof {
        assert(entry_views(entries@) =~= views.insert(p as int, x));
        lemma_insert_entry(info@, views, p as int, x);
        assert forall|e: Seq<Datum>| #[trigger]
            occurrences(entry_views(entries@), e) == occurrences(views, e) + (if e == x {
                1int
            } else {
                0
            }) by {
            lemma_occurrences_insert(views, p as int, x, e);
        }
    }
}

// What the changes of a transaction do to an index.

/// The first key column that a row does not have.
pub open spec fn missing_position(values: nat, positions: Seq<usize>) -> Option<usize>
    decreases positions.len(),
{
    if positions.len() == 0 {
        None
    } else {
        match missing_position(values, positions.drop_last()) {
            Some(p) => Some(p),
            None => if positions.last() >= values {
                Some(positions.last())
            } else {
                None
            },
        }
    }
}

/// The entry of a row in an index.
pub open spec fn entry_of(row: RowView, positions: Seq<usize>) -> Seq<Datum> {
    positions.map_values(|p: usize| row.values[p as int]).push(int_datum(row.rowid as int))
}

pub open spec fn position_message(position: usize, width: nat) -> Seq<char> {
    "matview index key position "@ + decimal(position as nat) + " out of range for a "@ + decimal(
        width,
    ) + "-column row"@
}

/// The entries of changes that add rows, or of those that take rows away; or why a row has no
/// entry.
pub open spec fn entries_of(changes: Seq<Change>, positions: Seq<usize>, added: bool) -> Result<
    Seq<Seq<Datum>>,
    Seq<char>,
>
    decreases changes.len(),
{
    if changes.len() == 0 {
        Ok(Seq::empty())
    } else {
        let c = changes.last();
        match entries_of(changes.drop_last(), positions, added) {
            Err(m) => Err(m),
            Ok(list) => match missing_position(c.0.values.len(), positions) {
                Some(p) => Err(position_message(p, c.0.values.len())),
                None => if (c.1 > 0) == added {
                    Ok(list.push(entry_of(c.0, positions)))
                } else {
                    Ok(list)
                },
            },
        }
    }
}

proof fn lemma_entries_of_prefix(
    changes: Seq<Change>,
    positions: Seq<usize>,
    added: bool,
    n: int,
)
    requires
        0 <= n <= changes.len(),
        entries_of(changes.take(n), positions, added) is Err,
    ensures
        entries_of(changes, positions, added) == entries_of(changes.take(n), positions, added),
    decreases changes.len() - n,
{
    if n == changes.len() {
        assert(changes.take(n) =~= changes);
    } else {
        assert(changes.take(n + 1).drop_last() =~= changes.take(n));
        lemma_entries_of_prefix(changes, positions, added, n + 1);
    }
}

fn make_entry(row: &HashableRow, positions: &Vec<usize>) -> (r: Result<Vec<Value>, LimboError>)
    ensures
        match missing_position(row@.values.len(), positions@) {
            Some(p) => r matches Err(e) && e@ == ErrorView::InternalError(
                position_message(p, row@.values.len()),
            ),
            None => r matches Ok(entry) && data(entry@) == entry_of(row@, positions@)
                && entry@.len() == positions@.len() + 1,
        },
        r is Ok <==> forall|i: int|
            0 <= i < positions@.len() ==> #[trigger] positions@[i] < row@.values.len(),
        r matches Ok(entry) ==> {
            &&& entry@.len() == positions@.len() + 1
            &&& forall|i: int|
                0 <= i < positions@.len() ==> (#[trigger] entry@[i])@
                    == row@.values[positions@[i] as int]
            &&& entry@.last()@ == Datum::Numeric(NumericView::Integer(row@.rowid))
        },
{
    proof {
        lemma_missing_position(row@.values.len(), positions@);
    }
    let mut entry: Vec<Value> = Vec::new();
    let mut i: usize = 0;
    assert(positions@.take(0) =~= Seq::<usize>::empty());
    while i < positions.len()
        invariant
            i <= positions.len(),
            entry@.len() == i,
            missing_position(row@.values.len(), positions@.take(i as int)) is None,
            forall|j: int|
                0 <= j < i ==> (#[trigger] entry@[j])@ == row@.values[positions@[j] as int],
        decreases positions.len() - i,
    {
        let p: usize = positions[i];
        assert(positions@.take(i + 1).drop_last() =~= positions@.take(i as int));
        assert(positions@.take(i + 1).last() == p);
        if p >= row.values.len() {
            proof {
                lemma_missing_prefix(row@.values.len(), positions@, i + 1);
            }
            let mut m = "matview index key position ".to_owned();
            m.append(decimal_usize(p).as_str());
            m.append(" out of range for a ");
            m.append(decimal_usize(row.values.len()).as_str());
            m.append("-column row");
            return Err(LimboError::InternalError(m));
        }
        entry.push(row.values[p].clone());
        i += 1;
    }
    assert(positions@.take(i as int) =~= positions@);
    entry.push(Value::from_i64(row.rowid));
    assert(data(entry@) =~= entry_of(row@, positions@));
    Ok(entry)
}

/// A key column is missing exactly if one of the positions is beyond the row.
proof fn lemma_missing_position(values: nat, positions: Seq<usize>)
    ensures
        missing_position(values, positions) is None <==> (forall|i: int|
            0 <= i < positions.len() ==> #[trigger] positions[i] < values),
    decreases positions.len(),
{
    if positions.len() > 0 {
        let front = positions.drop_last();
        lemma_missing_position(values, front);
        if missing_position(values, positions) is None {
            assert forall|i: int| 0 <= i < positions.len() implies #[trigger] positions[i]
                < values by {
                if i < front.len() {
                    assert(front[i] == positions[i]);
                }
            }
        } else if forall|i: int| 0 <= i < positions.len() ==> #[trigger] positions[i] < values {
            assert forall|i: int| 0 <= i < front.len() implies #[trigger] front[i] < values by {
                assert(front[i] == positions[i]);
            }
            assert(positions[positions.len() - 1] < values);
        }
    }
}

proof fn lemma_missing_prefix(values: nat, positions: Seq<usize>, n: int)
    requires
        0 <= n <= positions.len(),
        missing_position(values, positions.take(n)) is Some,
    ensures
        missing_position(values, positions) == missing_position(values, positions.take(n)),
    decreases positions.len() - n,
{
    if n == positions.len() {
        assert(positions.take(n) =~= positions);
    } else {
        assert(positions.take(n + 1).drop_last() =~= positions.take(n));
        lemma_missing_prefix(values, positions, n + 1);
    }
}

// The cursor.

/// Where the stored side of the merge stands.
#[derive(Debug, PartialEq, Eq, Clone, Copy, Structural)]
pub enum BtreeStep {
    /// Its next entry is known.
    Idle,
    Rewinding,
    Lasting,
    Seeking { op: SeekOp },
    Advancing { forward: bool },
    Reading { forward: bool },
}

/// What is to be done with the stored index.
#[derive(Debug, PartialEq, Eq, Clone, Copy, Structural)]
pub enum IndexAction {
    Rewind,
    Last,
    /// Search for the key of the cursor.
    Seek { op: SeekOp },
    Next,
    Prev,
    /// Read the entry where it stands, if it stands at one.
    Read,
}

/// What has been done with the stored index.
#[derive(Debug)]
pub enum IndexEvent {
    /// Nothing yet: asks again for what is to be done.
    Resume,
    /// It was rewound, taken to its end, or moved on.
    Moved,
    Sought(SeekResult),
    /// The entry that was read, none where it stands at none.
    Record(Option<Vec<Value>>),
}

#[verifier::ext_equal]
pub enum IndexEventView {
    Resume,
    Moved,
    Sought(SeekResult),
    Record(Option<Seq<Datum>>),
}

impl View for IndexEvent {
    type V = IndexEventView;

    open spec fn view(&self) -> IndexEventView {
        match self {
            IndexEvent::Resume => IndexEventView::Resume,
            IndexEvent::Moved => IndexEventView::Moved,
            IndexEvent::Sought(r) => IndexEventView::Sought(*r),
            IndexEvent::Record(e) => IndexEventView::Record(entry_at(*e)),
        }
    }
}

/// How the entries of an index are compared, and whether they end in a row id.
#[derive(Debug)]
pub struct IndexInfo {
    pub key_info: Vec<KeyInfo>,
    pub has_rowid: bool,
}

/// A cursor over an index on a view.
#[derive(Debug)]
pub struct MaterializedViewIndexCursor {
    pub index_info: IndexInfo,
    /// The columns of the view that make up the key.
    pub key_positions: Vec<usize>,
    /// Whether the changes are the whole view, so that the stored index is not read.
    pub btree_ignored: bool,
    /// The entries that the changes add, in order.
    pub additions: Vec<Vec<Value>>,
    /// The entries that the changes take away, in order. They are passed over where they are stored.
    pub tombstones: Vec<Vec<Value>>,
    /// The next stored entry in the direction of the cursor, where there is one.
    pub btree_pending: Option<Vec<Value>>,
    pub btree_step: BtreeStep,
    pub seek_key: Vec<Value>,
    /// How many columns of the key are looked at.
    pub seek_prefix: usize,
    /// Forward: the next addition. Backward: one past it.
    pub add_pos: usize,
    pub current: Option<Vec<Value>>,
    pub null_flag: bool,
}

pub open spec fn entry_at(e: Option<Vec<Value>>) -> Option<Seq<Datum>> {
    match e {
        Some(v) => Some(data(v@)),
        None => None,
    }
}

/// Whether an entry is taken away.
pub open spec fn taken_away(
    info: Seq<KeyInfo>,
    tombstones: Seq<Seq<Datum>>,
    entry: Seq<Datum>,
) -> bool {
    exists|i: int|
        0 <= i < tombstones.len() && entries_relation(info, #[trigger] tombstones[i], entry)
            == Relation::Equal
}

pub open spec fn move_on(forward: bool) -> IndexAction {
    if forward {
        IndexAction::Next
    } else {
        IndexAction::Prev
    }
}

/// The stored side of a merge: where it stands, and its next entry.
#[verifier::ext_equal]
pub struct Side {
    pub step: BtreeStep,
    pub pending: Option<Seq<Datum>>,
}

/// The stored side after an event, and what is to be done for it, if it is not settled.
pub open spec fn driven(
    side: Side,
    event: IndexEventView,
    ignored: bool,
    info: Seq<KeyInfo>,
    tombstones: Seq<Seq<Datum>>,
) -> (Side, Option<IndexAction>) {
    let nothing = (Side { step: BtreeStep::Idle, pending: None }, None);
    match side.step {
        BtreeStep::Idle => (side, None),
        BtreeStep::Rewinding => if ignored {
            nothing
        } else if event is Moved {
            (
                Side { step: BtreeStep::Reading { forward: true }, ..side },
                Some(IndexAction::Read),
            )
        } else {
            (side, Some(IndexAction::Rewind))
        },
        BtreeStep::Lasting => if ignored {
            nothing
        } else if event is Moved {
            (
                Side { step: BtreeStep::Reading { forward: false }, ..side },
                Some(IndexAction::Read),
            )
        } else {
            (side, Some(IndexAction::Last))
        },
        BtreeStep::Seeking { op } => if ignored {
            nothing
        } else {
            match event {
                IndexEventView::Sought(SeekResult::Found) => (
                    Side { step: BtreeStep::Reading { forward: op.is_forward() }, ..side },
                    Some(IndexAction::Read),
                ),
                IndexEventView::Sought(SeekResult::TryAdvance) => (
                    Side { step: BtreeStep::Advancing { forward: op.is_forward() }, ..side },
                    Some(move_on(op.is_forward())),
                ),
                IndexEventView::Sought(SeekResult::NotFound) => nothing,
                _ => (side, Some(IndexAction::Seek { op })),
            }
        },
        BtreeStep::Advancing { forward } => if event is Moved {
            (Side { step: BtreeStep::Reading { forward }, ..side }, Some(IndexAction::Read))
        } else {
            (side, Some(move_on(forward)))
        },
        BtreeStep::Reading { forward } => match event {
            IndexEventView::Record(None) => nothing,
            IndexEventView::Record(Some(e)) => if taken_away(info, tombstones, e) {
                (
                    Side { step: BtreeStep::Advancing { forward }, ..side },
                    Some(move_on(forward)),
                )
            } else {
                (Side { step: BtreeStep::Idle, pending: Some(e) }, None)
            },
            _ => (side, Some(IndexAction::Read)),
        },
    }
}

/// The next addition in a direction.
pub open spec fn next_addition(
    additions: Seq<Seq<Datum>>,
    add_pos: int,
    forward: bool,
) -> Option<Seq<Datum>> {
    let at = if forward {
        add_pos
    } else {
        add_pos - 1
    };
    if 0 <= at < additions.len() {
        Some(additions[at])
    } else {
        None
    }
}

/// Whether the next entry of a merge is the stored one. Of two equal entries the stored one comes
/// first, in either direction.
pub open spec fn stored_first(
    info: Seq<KeyInfo>,
    stored: Option<Seq<Datum>>,
    added: Option<Seq<Datum>>,
    forward: bool,
) -> bool {
    match (stored, added) {
        (None, _) => false,
        (Some(_), None) => true,
        (Some(b), Some(a)) => entries_relation(info, b, a) != (if forward {
            Relation::Greater
        } else {
            Relation::Less
        }),
    }
}

/// The additions that come before a key in a search: those that the search goes past, forward, or
/// comes to, backward.
pub open spec fn comes_before(
    info: Seq<KeyInfo>,
    entry: Seq<Datum>,
    key: Seq<Datum>,
    prefix: int,
    op: SeekOp,
) -> bool {
    let r = entry_relation(info, entry, key, prefix);
    match op {
        SeekOp::GE { .. } => r == Relation::Less,
        SeekOp::LT => r == Relation::Less,
        SeekOp::GT => r != Relation::Greater,
        SeekOp::LE { .. } => r != Relation::Greater,
    }
}

/// Whether a position parts entries: those before it come before a key, and the one at it does
/// not.
pub open spec fn parts(
    info: Seq<KeyInfo>,
    entries: Seq<Seq<Datum>>,
    key: Seq<Datum>,
    prefix: int,
    op: SeekOp,
    at: int,
) -> bool {
    &&& 0 <= at <= entries.len()
    &&& forall|i: int|
        0 <= i < at ==> comes_before(info, #[trigger] entries[i], key, prefix, op)
    &&& at < entries.len() ==> !comes_before(info, entries[at], key, prefix, op)
}

/// What a cursor merges: the order, the entries that are added and taken away, and whether the
/// stored ones are left out.
#[verifier::ext_equal]
pub struct Merging {
    pub info: Seq<KeyInfo>,
    pub additions: Seq<Seq<Datum>>,
    pub tombstones: Seq<Seq<Datum>>,
    pub ignored: bool,
}

/// Where a cursor stands: the stored side, the next addition, and the current entry.
#[verifier::ext_equal]
pub struct Standing {
    pub side: Side,
    pub add_pos: int,
    pub current: Option<Seq<Datum>>,
}

/// Where a cursor stands that has taken the next entry of the merge: from the side whose entry comes
/// first, which is then to be moved on.
pub open spec fn took(m: Merging, s: Standing, forward: bool) -> Standing {
    let added = next_addition(m.additions, s.add_pos, forward);
    if stored_first(m.info, s.side.pending, added, forward) {
        Standing {
            side: Side { step: BtreeStep::Advancing { forward }, pending: None },
            current: s.side.pending,
            ..s
        }
    } else {
        Standing {
            current: added,
            add_pos: s.add_pos + (if added is None {
                0int
            } else if forward {
                1
            } else {
                -1
            }),
            ..s
        }
    }
}

/// Where a cursor stands that has gone on with a move, and what it waits for: it waits for the stored
/// index, or it has taken the next entry of the merge.
pub open spec fn went_on(m: Merging, s: Standing, forward: bool, event: IndexEventView) -> (
    Standing,
    Option<IndexAction>,
) {
    let d = driven(s.side, event, m.ignored, m.info, m.tombstones);
    let now = Standing { side: d.0, ..s };
    match d.1 {
        Some(_) => (now, d.1),
        None => (took(m, now, forward), None),
    }
}

/// Where a move starts from.
pub open spec fn started(s: Standing, step: BtreeStep, add_pos: int) -> Standing {
    Standing { side: Side { step, ..s.side }, add_pos, ..s }
}

/// Whether two cursors differ at most in where they stand.
pub open spec fn same_index(a: MaterializedViewIndexCursor, b: MaterializedViewIndexCursor) -> bool {
    &&& a.index_info == b.index_info
    &&& a.key_positions == b.key_positions
    &&& a.btree_ignored == b.btree_ignored
    &&& a.additions == b.additions
    &&& a.tombstones == b.tombstones
}

impl MaterializedViewIndexCursor {
    pub open spec fn info(&self) -> Seq<KeyInfo> {
        self.index_info.key_info@
    }

    /// The stored side of the merge.
    pub open spec fn side(&self) -> Side {
        Side { step: self.btree_step, pending: entry_at(self.btree_pending) }
    }

    pub open spec fn merging(&self) -> Merging {
        Merging {
            info: self.info(),
            additions: entry_views(self.additions@),
            tombstones: entry_views(self.tombstones@),
            ignored: self.btree_ignored,
        }
    }

    pub open spec fn standing(&self) -> Standing {
        Standing {
            side: self.side(),
            add_pos: self.add_pos as int,
            current: entry_at(self.current),
        }
    }

    /// The entries of the changes stand in order and have one length.
    pub open spec fn wf(&self) -> bool {
        &&& self.key_positions@.len() < usize::MAX
        &&& even(entry_views(self.additions@), self.key_positions@.len() + 1)
        &&& even(entry_views(self.tombstones@), self.key_positions@.len() + 1)
        &&& entries_in_order(self.info(), entry_views(self.additions@))
        &&& entries_in_order(self.info(), entry_views(self.tombstones@))
        &&& self.add_pos <= self.additions@.len()
    }

    /// A cursor over an index that was never moved, without changes.
    pub fn new(index_info: IndexInfo, key_positions: Vec<usize>) -> (r: Self)
        requires
            key_positions@.len() < usize::MAX,
        ensures
            r.wf(),
            r.index_info == index_info,
            r.key_positions == key_positions,
            !r.btree_ignored,
            r.additions@.len() == 0,
            r.tombstones@.len() == 0,
            r.side() == (Side { step: BtreeStep::Idle, pending: None }),
            r.add_pos == 0,
            r.current is None,
            !r.null_flag,
    {
        MaterializedViewIndexCursor {
            index_info,
            key_positions,
            btree_ignored: false,
            additions: Vec::new(),
            tombstones: Vec::new(),
            btree_pending: None,
            btree_step: BtreeStep::Idle,
            seek_key: Vec::new(),
            seek_prefix: 0,
            add_pos: 0,
            current: None,
            null_flag: false,
        }
    }

    /// Takes in the changes of the transaction to the view.
    pub fn set_changes(&mut self, uncommitted: &RowKeyZSet, full_result: bool) -> (r: Result<
        (),
        LimboError,
    >)
        requires
            old(self).wf(),
        ensures
            match entries_of(uncommitted@, old(self).key_positions@, true) {
                Err(m) => {
                    &&& r matches Err(e) && e@ == ErrorView::InternalError(m)
                    &&& *final(self) == *old(self)
                },
                Ok(added) => {
                    &&& r is Ok
                    &&& final(self).wf()
                    &&& same_entries(entry_views(final(self).additions@), added)
                    &&& entries_of(uncommitted@, old(self).key_positions@, false) matches Ok(
                        removed,
                    ) && same_entries(entry_views(final(self).tombstones@), removed)
                    &&& final(self).btree_ignored == full_result
                    &&& final(self).add_pos == 0
                    &&& final(self).index_info == old(self).index_info
                    &&& final(self).key_positions == old(self).key_positions
                    &&& final(self).side() == old(self).side()
                    &&& final(self).current == old(self).current
                    &&& final(self).null_flag == old(self).null_flag
                    &&& final(self).seek_key == old(self).seek_key
                    &&& final(self).seek_prefix == old(self).seek_prefix
                },
            },
    {
        let ghost all = uncommitted@;
        let ghost positions = self.key_positions@;
        let mut additions: Vec<Vec<Value>> = Vec::new();
        let mut tombstones: Vec<Vec<Value>> = Vec::new();
        let ghost mut added: Seq<Seq<Datum>> = Seq::empty();
        let ghost mut removed: Seq<Seq<Datum>> = Seq::empty();
        let mut i: usize = 0;
        proof {
            assert(all.take(0) =~= Seq::<Change>::empty());
            assert(entry_views(additions@) =~= Seq::<Seq<Datum>>::empty());
            assert(entry_views(tombstones@) =~= Seq::<Seq<Datum>>::empty());
        }
        while i < uncommitted.delta.changes.len()
            invariant
                i <= uncommitted.delta.changes.len(),
                all == uncommitted@,
                positions == self.key_positions@,
                *self == *old(self),
                self.wf(),
                even(entry_views(additions@), positions.len() + 1),
                even(entry_views(tombstones@), positions.len() + 1),
                entries_in_order(self.info(), entry_views(additions@)),
                entries_in_order(self.info(), entry_views(tombstones@)),
                entries_of(all.take(i as int), positions, true) == Ok::<
                    Seq<Seq<Datum>>,
                    Seq<char>,
                >(added),
                entries_of(all.take(i as int), positions, false) == Ok::<
                    Seq<Seq<Datum>>,
                    Seq<char>,
                >(removed),
                same_entries(entry_views(additions@), added),
                same_entries(entry_views(tombstones@), removed),
            decreases uncommitted.delta.changes.len() - i,
        {
            let row = &uncommitted.delta.changes[i].0;
            let w: isize = uncommitted.delta.changes[i].1;
            proof {
                assert(all.take(i + 1).drop_last() =~= all.take(i as int));
                assert(all.take(i + 1).last() == (row@, w as int));
            }
            match make_entry(row, &self.key_positions) {
                Err(e) => {
                    proof {
                        lemma_entries_of_prefix(all, positions, true, i + 1);
                    }
                    return Err(e);
                },
                Ok(entry) => {
                    let ghost x = data(entry@);
                    if w > 0 {
                        let ghost before = entry_views(additions@);
                        insert_entry(&mut additions, entry, &self.index_info.key_info);
                        proof {
                            let old_added = added;
                            added = added.push(x);
                            assert forall|e: Seq<Datum>| #[trigger]
                                occurrences(entry_views(additions@), e) == occurrences(
                                    added,
                                    e,
                                ) by {
                                assert(added.drop_last() =~= old_added);
                                assert(occurrences(before, e) == occurrences(old_added, e));
                            }
                        }
                    } else {
                        let ghost before = entry_views(tombstones@);
                        insert_entry(&mut tombstones, entry, &self.index_info.key_info);
                        proof {
                            let old_removed = removed;
                            removed = removed.push(x);
                            assert forall|e: Seq<Datum>| #[trigger]
                                occurrences(entry_views(tombstones@), e) == occurrences(
                                    removed,
                                    e,
                                ) by {
                                assert(removed.drop_last() =~= old_removed);
                                assert(occurrences(before, e) == occurrences(old_removed, e));
                            }
                        }
                    }
                },
            }
            i += 1;
        }
        assert(all.take(i as int) =~= all);
        self.additions = additions;
        self.tombstones = tombstones;
        self.btree_ignored = full_result;
        self.add_pos = 0;
        Ok(())
    }

    fn is_tombstoned(&self, entry: &Vec<Value>) -> (r: bool)
        ensures
            r == taken_away(self.info(), entry_views(self.tombstones@), data(entry@)),
    {
        let ghost views = entry_views(self.tombstones@);
        let mut i: usize = 0;
        while i < self.tombstones.len()
            invariant
                i <= self.tombstones.len(),
                views == entry_views(self.tombstones@),
                forall|k: int|
                    0 <= k < i ==> entries_relation(
                        self.info(),
                        #[trigger] views[k],
                        data(entry@),
                    ) != Relation::Equal,
            decreases self.tombstones.len() - i,
        {
            assert(views[i as int] == data(self.tombstones@[i as int]@));
            if compare_entries(
                &self.index_info.key_info,
                &self.tombstones[i],
                entry,
                usize::MAX,
            ) == Relation::Equal {
                return true;
            }
            i += 1;
        }
        false
    }

    /// Goes on with settling the stored side. Tells what is to be done for it, if it is not settled.
    fn drive_btree(&mut self, event: IndexEvent) -> (r: Option<IndexAction>)
        requires
            old(self).wf(),
        ensures
            final(self).wf(),
            same_index(*final(self), *old(self)),
            final(self).seek_key == old(self).seek_key,
            final(self).seek_prefix == old(self).seek_prefix,
            final(self).add_pos == old(self).add_pos,
            final(self).current == old(self).current,
            final(self).null_flag == old(self).null_flag,
            (final(self).side(), r) == driven(
                old(self).side(),
                event@,
                old(self).btree_ignored,
                old(self).info(),
                entry_views(old(self).tombstones@),
            ),
            r is None ==> final(self).btree_step == BtreeStep::Idle,
    {
        match self.btree_step {
            BtreeStep::Idle => None,
            BtreeStep::Rewinding => {
                if self.btree_ignored {
                    self.btree_pending = None;
                    self.btree_step = BtreeStep::Idle;
                    return None;
                }
                match event {
                    IndexEvent::Moved => {
                        self.btree_step = BtreeStep::Reading { forward: true };
                        Some(IndexAction::Read)
                    },
                    _ => Some(IndexAction::Rewind),
                }
            },
            BtreeStep::Lasting => {
                if self.btree_ignored {
                    self.btree_pending = None;
                    self.btree_step = BtreeStep::Idle;
                    return None;
                }
                match event {
                    IndexEvent::Moved => {
                        self.btree_step = BtreeStep::Reading { forward: false };
                        Some(IndexAction::Read)
                    },
                    _ => Some(IndexAction::Last),
                }
            },
            BtreeStep::Seeking { op } => {
                if self.btree_ignored {
                    self.btree_pending = None;
                    self.btree_step = BtreeStep::Idle;
                    return None;
                }
                let forward = op.forward();
                match event {
                    IndexEvent::Sought(SeekResult::Found) => {
                        self.btree_step = BtreeStep::Reading { forward };
                        Some(IndexAction::Read)
                    },
                    IndexEvent::Sought(SeekResult::TryAdvance) => {
                        self.btree_step = BtreeStep::Advancing { forward };
                        Some(
                            if forward {
                                IndexAction::Next
                            } else {
                                IndexAction::Prev
                            },
                        )
                    },
                    IndexEvent::Sought(SeekResult::NotFound) => {
                        self.btree_pending = None;
                        self.btree_step = BtreeStep::Idle;
                        None
                    },
                    _ => Some(IndexAction::Seek { op }),
                }
            },
            BtreeStep::Advancing { forward } => match event {
                IndexEvent::Moved => {
                    self.btree_step = BtreeStep::Reading { forward };
                    Some(IndexAction::Read)
                },
                _ => Some(
                    if forward {
                        IndexAction::Next
                    } else {
                        IndexAction::Prev
                    },
                ),
            },
            BtreeStep::Reading { forward } => match event {
                IndexEvent::Record(None) => {
                    self.btree_pending = None;
                    self.btree_step = BtreeStep::Idle;
                    None
                },
                IndexEvent::Record(Some(values)) => {
                    if self.is_tombstoned(&values) {
                        self.btree_step = BtreeStep::Advancing { forward };
                        Some(
                            if forward {
                                IndexAction::Next
                            } else {
                                IndexAction::Prev
                            },
                        )
                    } else {
                        self.btree_pending = Some(values);
                        self.btree_step = BtreeStep::Idle;
                        None
                    }
                },
                _ => Some(IndexAction::Read),
            },
        }
    }

    /// Takes the next entry of the merge from the side that has it.
    fn choose_entry(&mut self, forward: bool)
        requires
            old(self).wf(),
            old(self).btree_step == BtreeStep::Idle,
        ensures
            final(self).wf(),
            same_index(*final(self), *old(self)),
            final(self).seek_key == old(self).seek_key,
            final(self).seek_prefix == old(self).seek_prefix,
            final(self).null_flag == old(self).null_flag,
            final(self).standing() == took(old(self).merging(), old(self).standing(), forward),
    {
        let ghost info = self.info();
        let ghost views = entry_views(self.additions@);
        let at: Option<usize> = if forward {
            if self.add_pos < self.additions.len() {
                Some(self.add_pos)
            } else {
                None
            }
        } else if self.add_pos > 0 {
            Some(self.add_pos - 1)
        } else {
            None
        };
        let mut pending: Option<Vec<Value>> = None;
        std::mem::swap(&mut pending, &mut self.btree_pending);
        match (pending, at) {
            (None, None) => {
                self.current = None;
            },
            (Some(b), None) => {
                self.btree_step = BtreeStep::Advancing { forward };
                self.current = Some(b);
            },
            (None, Some(i)) => {
                assert(views[i as int] == data(self.additions@[i as int]@));
                self.current = Some(copy_values(&self.additions[i]));
                self.add_pos = if forward {
                    i + 1
                } else {
                    i
                };
            },
            (Some(b), Some(i)) => {
                assert(views[i as int] == data(self.additions@[i as int]@));
                let r = compare_entries(
                    &self.index_info.key_info,
                    &b,
                    &self.additions[i],
                    usize::MAX,
                );
                let take = if forward {
                    r != Relation::Greater
                } else {
                    r != Relation::Less
                };
                if take {
                    self.btree_step = BtreeStep::Advancing { forward };
                    self.current = Some(b);
                } else {
                    self.btree_pending = Some(b);
                    self.current = Some(copy_values(&self.additions[i]));
                    self.add_pos = if forward {
                        i + 1
                    } else {
                        i
                    };
                }
            },
        }
    }

    /// Goes on with a move to the next entry in a direction. Tells what is to be done with the stored
    /// index, if the move is not done.
    fn advance(&mut self, forward: bool, event: IndexEvent) -> (r: Option<IndexAction>)
        requires
            old(self).wf(),
        ensures
            final(self).wf(),
            same_index(*final(self), *old(self)),
            final(self).seek_key == old(self).seek_key,
            final(self).seek_prefix == old(self).seek_prefix,
            final(self).null_flag == old(self).null_flag,
            (final(self).standing(), r) == went_on(
                old(self).merging(),
                old(self).standing(),
                forward,
                event@,
            ),
    {
        match self.drive_btree(event) {
            Some(a) => Some(a),
            None => {
                self.choose_entry(forward);
                None
            },
        }
    }

    /// Goes on with a move to the first or the last entry, forward from the first and backward from
    /// the last.
    pub fn go_on(&mut self, forward: bool, event: IndexEvent) -> (r: Option<IndexAction>)
        requires
            old(self).wf(),
        ensures
            final(self).wf(),
            same_index(*final(self), *old(self)),
            final(self).seek_key == old(self).seek_key,
            final(self).seek_prefix == old(self).seek_prefix,
            final(self).null_flag == old(self).null_flag,
            (final(self).standing(), r) == went_on(
                old(self).merging(),
                old(self).standing(),
                forward,
                event@,
            ),
    {
        self.advance(forward, event)
    }

    /// Goes on with a move to the next entry.
    pub fn next(&mut self, event: IndexEvent) -> (r: Option<IndexAction>)
        requires
            old(self).wf(),
        ensures
            final(self).wf(),
            same_index(*final(self), *old(self)),
            !final(self).null_flag,
            final(self).seek_key == old(self).seek_key,
            final(self).seek_prefix == old(self).seek_prefix,
            (final(self).standing(), r) == went_on(
                old(self).merging(),
                old(self).standing(),
                true,
                event@,
            ),
    {
        self.null_flag = false;
        self.advance(true, event)
    }

    /// Goes on with a move to the entry before.
    pub fn prev(&mut self, event: IndexEvent) -> (r: Option<IndexAction>)
        requires
            old(self).wf(),
        ensures
            final(self).wf(),
            same_index(*final(self), *old(self)),
            !final(self).null_flag,
            final(self).seek_key == old(self).seek_key,
            final(self).seek_prefix == old(self).seek_prefix,
            (final(self).standing(), r) == went_on(
                old(self).merging(),
                old(self).standing(),
                false,
                event@,
            ),
    {
        self.null_flag = false;
        self.advance(false, event)
    }

    /// Puts both sides where a move starts from.
    fn start(&mut self, step: BtreeStep, add_pos: usize)
        requires
            old(self).wf(),
            add_pos <= old(self).additions@.len(),
        ensures
            final(self).wf(),
            same_index(*final(self), *old(self)),
            final(self).seek_key == old(self).seek_key,
            final(self).seek_prefix == old(self).seek_prefix,
            final(self).null_flag == old(self).null_flag,
            final(self).current == old(self).current,
            final(self).btree_pending == old(self).btree_pending,
            final(self).btree_step == step,
            final(self).add_pos == add_pos,
    {
        self.btree_step = step;
        self.add_pos = add_pos;
    }

    /// Starts a move to the first entry, and goes as far as it can without the stored index. `go_on`
    /// goes on with it, forward.
    pub fn rewind(&mut self) -> (r: Option<IndexAction>)
        requires
            old(self).wf(),
        ensures
            final(self).wf(),
            same_index(*final(self), *old(self)),
            final(self).seek_key == old(self).seek_key,
            final(self).seek_prefix == old(self).seek_prefix,
            final(self).null_flag == old(self).null_flag,
            (final(self).standing(), r) == went_on(
                old(self).merging(),
                started(old(self).standing(), BtreeStep::Rewinding, 0),
                true,
                IndexEventView::Resume,
            ),
    {
        self.start(BtreeStep::Rewinding, 0);
        self.advance(true, IndexEvent::Resume)
    }

    /// Starts a move to the last entry, and goes as far as it can without the stored index. `go_on`
    /// goes on with it, backward.
    pub fn last(&mut self) -> (r: Option<IndexAction>)
        requires
            old(self).wf(),
        ensures
            final(self).wf(),
            same_index(*final(self), *old(self)),
            final(self).seek_key == old(self).seek_key,
            final(self).seek_prefix == old(self).seek_prefix,
            final(self).null_flag == old(self).null_flag,
            (final(self).standing(), r) == went_on(
                old(self).merging(),
                started(
                    old(self).standing(),
                    BtreeStep::Lasting,
                    old(self).additions@.len() as int,
                ),
                false,
                IndexEventView::Resume,
            ),
    {
        let n: usize = self.additions.len();
        self.start(BtreeStep::Lasting, n);
        self.advance(false, IndexEvent::Resume)
    }

    /// Starts a search for a key, and goes as far as it can without the stored index. `next` or
    /// `prev` goes on with it, as the search goes forward or backward.
    pub fn seek(&mut self, key: Vec<Value>, op: SeekOp) -> (r: Option<IndexAction>)
        requires
            old(self).wf(),
        ensures
            final(self).wf(),
            same_index(*final(self), *old(self)),
            !final(self).null_flag,
            final(self).seek_key == key,
            final(self).seek_prefix == key@.len(),
            exists|at: usize| #[trigger]
                parts(
                    old(self).info(),
                    entry_views(old(self).additions@),
                    data(key@),
                    key@.len() as int,
                    op,
                    at as int,
                ) && (final(self).standing(), r) == went_on(
                    old(self).merging(),
                    started(old(self).standing(), BtreeStep::Seeking { op }, at as int),
                    op.is_forward(),
                    IndexEventView::Resume,
                ),
    {
        let ghost views = entry_views(self.additions@);
        let ghost k = data(key@);
        let n: usize = key.len();
        let mut at: usize = 0;
        let mut ahead = true;
        while at < self.additions.len() && ahead
            invariant
                at <= self.additions.len(),
                *self == *old(self),
                views == entry_views(self.additions@),
                k == data(key@),
                n == key@.len(),
                forall|i: int|
                    0 <= i < at ==> comes_before(self.info(), #[trigger] views[i], k, n as int, op),
                !ahead ==> at < views.len() && !comes_before(
                    self.info(),
                    views[at as int],
                    k,
                    n as int,
                    op,
                ),
            decreases self.additions.len() - at + (if ahead {
                1int
            } else {
                0
            }),
        {
            assert(views[at as int] == data(self.additions@[at as int]@));
            let r = compare_entries(&self.index_info.key_info, &self.additions[at], &key, n);
            let before = match op {
                SeekOp::GE { .. } => r == Relation::Less,
                SeekOp::LT => r == Relation::Less,
                SeekOp::GT => r != Relation::Greater,
                SeekOp::LE { .. } => r != Relation::Greater,
            };
            if before {
                at += 1;
            } else {
                ahead = false;
            }
        }
        assert(parts(self.info(), views, k, n as int, op, at as int));
        self.null_flag = false;
        self.seek_key = key;
        self.seek_prefix = n;
        self.start(BtreeStep::Seeking { op }, at);
        self.advance(op.forward(), IndexEvent::Resume)
    }

    /// Tells what a search that is done has come to. Where only the very key was looked for, an entry
    /// that does not begin with it is none.
    pub fn finish_seek(&mut self, op: SeekOp) -> (r: SeekResult)
        requires
            old(self).wf(),
        ensures
            final(self).wf(),
            same_index(*final(self), *old(self)),
            match entry_at(old(self).current) {
                None => r == SeekResult::NotFound && *final(self) == *old(self),
                Some(e) => if (op == (SeekOp::GE { eq_only: true }) || op == (SeekOp::LE {
                    eq_only: true,
                })) && entry_relation(
                    old(self).info(),
                    e,
                    data(old(self).seek_key@),
                    old(self).seek_prefix as int,
                ) != Relation::Equal {
                    &&& r == SeekResult::NotFound
                    &&& *final(self) == (MaterializedViewIndexCursor {
                        current: None,
                        ..*old(self)
                    })
                } else {
                    r == SeekResult::Found && *final(self) == *old(self)
                },
            },
    {
        let exact = match op {
            SeekOp::GE { eq_only } => eq_only,
            SeekOp::LE { eq_only } => eq_only,
            _ => false,
        };
        let differs = match &self.current {
            None => return SeekResult::NotFound,
            Some(found) => exact && compare_entries(
                &self.index_info.key_info,
                found,
                &self.seek_key,
                self.seek_prefix,
            ) != Relation::Equal,
        };
        if differs {
            self.current = None;
            return SeekResult::NotFound;
        }
        SeekResult::Found
    }

    /// The row id that the current entry ends in.
    pub fn rowid(&self) -> (r: Result<Option<i64>, LimboError>)
        ensures
            if self.null_flag || !self.index_info.has_rowid {
                r matches Ok(x) && x is None
            } else {
                match entry_at(self.current) {
                    None => r matches Ok(x) && x is None,
                    Some(e) => if e.len() > 0 && rowid_of(e.last()) is Some {
                        r matches Ok(Some(id)) && id == rowid_of(e.last())->Some_0
                    } else {
                        r matches Err(err) && err@ == ErrorView::Corrupt(
                            "index on materialized view: entry ends in "@ + (if e.len() > 0 {
                                "Some("@ + value_text(e.last()) + ")"@
                            } else {
                                "None"@
                            }) + ", not a rowid"@,
                        )
                    },
                }
            },
    {
        if self.null_flag || !self.index_info.has_rowid {
            return Ok(None);
        }
        let entry = match &self.current {
            None => return Ok(None),
            Some(entry) => entry,
        };
        let mut found = "None".to_owned();
        if entry.len() > 0 {
            assert(data(entry@).last() == entry@[entry@.len() - 1]@);
            let last = &entry[entry.len() - 1];
            if let Value::Numeric(Numeric::Integer(id)) = last {
                return Ok(Some(*id));
            }
            found = "Some(".to_owned();
            found.append(write_value(last).as_str());
            found.append(")");
        }
        let mut m = "index on materialized view: entry ends in ".to_owned();
        m.append(found.as_str());
        m.append(", not a rowid");
        Err(LimboError::Corrupt(m))
    }

    /// The current entry.
    pub fn record(&self) -> (r: Option<Vec<Value>>)
        ensures
            entry_at(r) == (if self.null_flag {
                None
            } else {
                entry_at(self.current)
            }),
    {
        if self.null_flag {
            return None;
        }
        match &self.current {
            Some(v) => Some(copy_values(v)),
            None => None,
        }
    }

    pub fn has_record(&self) -> (r: bool)
        ensures
            r == (self.current is Some),
    {
        self.current.is_some()
    }

    pub fn is_empty(&self) -> (r: bool)
        ensures
            r == (self.current is None),
    {
        self.current.is_none()
    }

    /// Takes the cursor off its entry.
    pub fn set_has_record(&mut self, has_record: bool)
        ensures
            *final(self) == (if has_record {
                *old(self)
            } else {
                MaterializedViewIndexCursor { current: None, ..*old(self) }
            }),
    {
        if !has_record {
            self.current = None;
        }
    }

    pub fn get_null_flag(&self) -> (r: bool)
        ensures
            r == self.null_flag,
    {
        self.null_flag
    }

    pub fn has_rowid(&self) -> (r: bool)
        ensures
            r == self.index_info.has_rowid,
    {
        self.index_info.has_rowid
    }

    pub fn set_null_flag(&mut self, flag: bool)
        ensures
            *final(self) == (MaterializedViewIndexCursor { null_flag: flag, ..*old(self) }),
    {
        self.null_flag = flag;
    }
}

/// The index of a view is written only when changes are committed.
pub fn write_through_the_overlay(op: &str) -> (r: LimboError)
    ensures
        r@ == ErrorView::InternalError(
            "cannot "@ + op@ + " through a materialized view's index cursor"@,
        ),
{
    let mut m = "cannot ".to_owned();
    m.append(op);
    m.append(" through a materialized view's index cursor");
    LimboError::InternalError(m)
}

/// Entries of an index on a view are not looked up by row id.
pub fn no_rowid_lookup() -> (r: LimboError)
    ensures
        r@ == ErrorView::InternalError("a materialized view's index has no rowid lookup"@),
{
    LimboError::InternalError("a materialized view's index has no rowid lookup".to_owned())
}

/// Entries of an index on a view are looked up by keys of the index.
pub fn not_an_index_key() -> (r: LimboError)
    ensures
        r@ == ErrorView::InternalError(
            "a materialized view's index can only be searched with an index key"@,
        ),
{
    LimboError::InternalError(
        "a materialized view's index can only be searched with an index key".to_owned(),
    )
}

// What the entries of the changes hold.

/// Changes have entries exactly if every row has every key column.
pub proof fn law_changes_with_all_key_columns_have_entries(
    changes: Seq<Change>,
    positions: Seq<usize>,
    added: bool,
)
    ensures
        entries_of(changes, positions, added) is Ok <==> (forall|c: int, i: int|
            0 <= c < changes.len() && 0 <= i < positions.len() ==> #[trigger] positions[i]
                < (#[trigger] changes[c]).0.values.len()),
    decreases changes.len(),
{
    if changes.len() > 0 {
        let front = changes.drop_last();
        let last = changes.len() - 1;
        law_changes_with_all_key_columns_have_entries(front, positions, added);
        lemma_missing_position(changes.last().0.values.len(), positions);
        if entries_of(changes, positions, added) is Ok {
            assert forall|c: int, i: int|
                0 <= c < changes.len() && 0 <= i < positions.len() implies #[trigger] positions[i]
                < (#[trigger] changes[c]).0.values.len() by {
                if c < last {
                    assert(front[c] == changes[c]);
                }
            }
        } else if forall|c: int, i: int|
            0 <= c < changes.len() && 0 <= i < positions.len() ==> #[trigger] positions[i] < (
            #[trigger] changes[c]).0.values.len() {
            assert forall|c: int, i: int|
                0 <= c < front.len() && 0 <= i < positions.len() implies #[trigger] positions[i]
                < (#[trigger] front[c]).0.values.len() by {
                assert(front[c] == changes[c]);
            }
            assert(changes[last] == changes.last());
        }
    }
}

/// An entry is added, or taken away, as often as a change with a positive weight, or with one that
/// is not, has a row with these very values at the key positions, one for one, and with the row id
/// that the entry ends in.
pub proof fn law_entries_hold_the_key_columns_and_the_rowid(
    changes: Seq<Change>,
    positions: Seq<usize>,
    added: bool,
    e: Seq<Datum>,
)
    requires
        entries_of(changes, positions, added) is Ok,
    ensures
        occurrences(entries_of(changes, positions, added)->Ok_0, e) == changes.filter(
            |c: Change|
                {
                    &&& (c.1 > 0) == added
                    &&& e.len() == positions.len() + 1
                    &&& forall|i: int|
                        0 <= i < positions.len() ==> #[trigger] e[i]
                            == c.0.values[positions[i] as int]
                    &&& e[positions.len() as int] == Datum::Numeric(
                        NumericView::Integer(c.0.rowid),
                    )
                },
        ).len(),
    decreases changes.len(),
{
    let holds = |c: Change|
        {
            &&& (c.1 > 0) == added
            &&& e.len() == positions.len() + 1
            &&& forall|i: int|
                0 <= i < positions.len() ==> #[trigger] e[i] == c.0.values[positions[i] as int]
            &&& e[positions.len() as int] == Datum::Numeric(NumericView::Integer(c.0.rowid))
        };
    reveal(Seq::filter);
    if changes.len() > 0 {
        let front = changes.drop_last();
        let c = changes.last();
        law_entries_hold_the_key_columns_and_the_rowid(front, positions, added, e);
        let entry = entry_of(c.0, positions);
        let list = entries_of(front, positions, added)->Ok_0;
        if (c.1 > 0) == added {
            assert(list.push(entry).drop_last() =~= list);
            if holds(c) {
                assert(e =~= entry);
            } else if e == entry {
                assert(false);
            }
        }
    }
}

proof fn lemma_occurs(s: Seq<Seq<Datum>>, e: Seq<Datum>)
    ensures
        occurrences(s, e) >= 0,
        occurrences(s, e) > 0 <==> s.contains(e),
    decreases s.len(),
{
    if s.len() > 0 {
        let front = s.drop_last();
        lemma_occurs(front, e);
        if s.contains(e) && s.last() != e {
            let i = choose|i: int| 0 <= i < s.len() && s[i] == e;
            assert(front[i] == e);
        } else if s.last() == e {
            assert(s[s.len() - 1] == e);
        } else if front.contains(e) {
            let i = choose|i: int| 0 <= i < front.len() && front[i] == e;
            assert(s[i] == e);
        }
    }
}

/// The stored entry of a row is hidden exactly if a change of the transaction takes away a row with
/// the same row id and, at every key position, a value that the index does not tell from the row's.
pub proof fn law_a_stored_entry_is_hidden_by_the_removal_of_its_row(
    info: Seq<KeyInfo>,
    changes: Seq<Change>,
    positions: Seq<usize>,
    tombstones: Seq<Seq<Datum>>,
    row: RowView,
    e: Seq<Datum>,
)
    requires
        entries_of(changes, positions, false) is Ok,
        same_entries(tombstones, entries_of(changes, positions, false)->Ok_0),
        positions.len() < info.len(),
        positions.len() < usize::MAX,
        e.len() == positions.len() + 1,
        forall|i: int|
            0 <= i < positions.len() ==> #[trigger] e[i] == row.values[positions[i] as int],
        e[positions.len() as int] == Datum::Numeric(NumericView::Integer(row.rowid)),
    ensures
        taken_away(info, tombstones, e) <==> exists|c: int|
            {
                &&& 0 <= c < changes.len()
                &&& (#[trigger] changes[c]).1 <= 0
                &&& changes[c].0.rowid == row.rowid
                &&& forall|i: int|
                    0 <= i < positions.len() ==> value_relation(
                        changes[c].0.values[#[trigger] positions[i] as int],
                        row.values[positions[i] as int],
                        info[i].collation,
                    ) == Relation::Equal
            },
{
    let n = positions.len() as int;
    let removed = entries_of(changes, positions, false)->Ok_0;
    lemma_removed_entries(changes, positions);
    if taken_away(info, tombstones, e) {
        let t = choose|t: int|
            0 <= t < tombstones.len() && entries_relation(info, #[trigger] tombstones[t], e)
                == Relation::Equal;
        let x = tombstones[t];
        lemma_occurs(tombstones, x);
        lemma_occurs(removed, x);
        assert(occurrences(tombstones, x) == occurrences(removed, x));
        let k = choose|k: int| 0 <= k < removed.len() && removed[k] == x;
        let c = choose|c: int|
            0 <= c < changes.len() && (#[trigger] changes[c]).1 <= 0 && removed[k] == entry_of(
                changes[c].0,
                positions,
            );
        law_equal_entries_agree_in_every_column(info, x, e, usize::MAX as int);
        assert forall|i: int| 0 <= i < n implies value_relation(
            changes[c].0.values[#[trigger] positions[i] as int],
            row.values[positions[i] as int],
            info[i].collation,
        ) == Relation::Equal by {
            assert(x[i] == changes[c].0.values[positions[i] as int]);
            assert(e[i] == row.values[positions[i] as int]);
        }
        assert(value_relation(x[n], e[n], info[n].collation) == Relation::Equal);
        law_values_stand_by_their_kinds(x[n], e[n], info[n].collation);
        assert(changes[c].0.rowid == row.rowid);
    } else if exists|c: int|
        {
            &&& 0 <= c < changes.len()
            &&& (#[trigger] changes[c]).1 <= 0
            &&& changes[c].0.rowid == row.rowid
            &&& forall|i: int|
                0 <= i < n ==> value_relation(
                    changes[c].0.values[#[trigger] positions[i] as int],
                    row.values[positions[i] as int],
                    info[i].collation,
                ) == Relation::Equal
        } {
        let c = choose|c: int|
            {
                &&& 0 <= c < changes.len()
                &&& (#[trigger] changes[c]).1 <= 0
                &&& changes[c].0.rowid == row.rowid
                &&& forall|i: int|
                    0 <= i < n ==> value_relation(
                        changes[c].0.values[#[trigger] positions[i] as int],
                        row.values[positions[i] as int],
                        info[i].collation,
                    ) == Relation::Equal
            };
        let x = entry_of(changes[c].0, positions);
        assert(removed.contains(x));
        lemma_occurs(tombstones, x);
        lemma_occurs(removed, x);
        assert(occurrences(tombstones, x) == occurrences(removed, x));
        let t = choose|t: int| 0 <= t < tombstones.len() && tombstones[t] == x;
        law_values_stand_by_their_kinds(x[n], e[n], info[n].collation);
        assert forall|j: int|
            0 <= j < usize::MAX && j < info.len() && j < x.len() && j < e.len() implies
            value_relation(#[trigger] x[j], e[j], info[j].collation) == Relation::Equal by {
            if j < n {
                assert(x[j] == changes[c].0.values[positions[j] as int]);
            }
        }
        law_equal_entries_agree_in_every_column(info, x, e, usize::MAX as int);
        assert(entries_relation(info, tombstones[t], e) == Relation::Equal);
        assert(false);
    }
}

/// The entries that are taken away are those of the rows that are.
proof fn lemma_removed_entries(changes: Seq<Change>, positions: Seq<usize>)
    requires
        entries_of(changes, positions, false) is Ok,
    ensures
        ({
            let removed = entries_of(changes, positions, false)->Ok_0;
            &&& forall|k: int|
                0 <= k < removed.len() ==> exists|c: int|
                    0 <= c < changes.len() && (#[trigger] changes[c]).1 <= 0
                        && #[trigger] removed[k] == entry_of(changes[c].0, positions)
            &&& forall|c: int|
                0 <= c < changes.len() && (#[trigger] changes[c]).1 <= 0 ==> removed.contains(
                    entry_of(changes[c].0, positions),
                )
        }),
    decreases changes.len(),
{
    let removed = entries_of(changes, positions, false)->Ok_0;
    if changes.len() > 0 {
        let front = changes.drop_last();
        let last = changes.len() - 1;
        let list = entries_of(front, positions, false)->Ok_0;
        lemma_removed_entries(front, positions);
        assert forall|k: int| 0 <= k < removed.len() implies exists|c: int|
            0 <= c < changes.len() && (#[trigger] changes[c]).1 <= 0 && #[trigger] removed[k]
                == entry_of(changes[c].0, positions) by {
            if k < list.len() {
                assert(removed[k] == list[k]);
                let c = choose|c: int|
                    0 <= c < front.len() && (#[trigger] front[c]).1 <= 0 && list[k] == entry_of(
                        front[c].0,
                        positions,
                    );
                assert(changes[c] == front[c]);
            } else {
                assert(changes[last].1 <= 0);
            }
        }
        assert forall|c: int|
            0 <= c < changes.len() && (#[trigger] changes[c]).1 <= 0 implies removed.contains(
            entry_of(changes[c].0, positions),
        ) by {
            if c < last {
                assert(front[c] == changes[c]);
                let k = choose|k: int|
                    0 <= k < list.len() && list[k] == entry_of(front[c].0, positions);
                assert(removed[k] == list[k]);
            } else {
                assert(removed[removed.len() - 1] == entry_of(changes[c].0, positions));
            }
        }
    }
}

} // verus!
