//! Writing the rows of a view.
//!
//! A stored row carries its weight. To write a row with a weight is to add that weight to the
//! stored one, and to keep the row as long as its weight is positive. Storage is reached through
//! the caller: the machines here say what to do next and are told what came of it.

use vstd::prelude::*;

use crate::error::{ErrorView, LimboError};
use crate::layout::table_record;
use crate::text::{decimal_i64, decimal_int};
use crate::value::{copy_values, data, int_datum, Datum, Numeric, NumericView, Value};

verus! {

/// What a search for a key comes to.
#[derive(Debug, PartialEq, Eq, Clone, Copy, Structural)]
pub enum SeekResult {
    Found,
    /// The search has ended between two leaves: the next entry may be the one.
    TryAdvance,
    NotFound,
}

/// What is to be done with storage.
#[derive(Debug)]
pub enum RowAction {
    /// Search for the key of the row.
    Seek,
    /// Read the record that was found.
    ReadRecord,
    /// Go to the next entry.
    Advance,
    /// Delete the record that was found.
    Delete,
    /// Insert a record under the key of the row.
    Insert(Vec<Value>),
    Done,
}

#[verifier::ext_equal]
pub enum RowActionView {
    Seek,
    ReadRecord,
    Advance,
    Delete,
    Insert(Seq<Datum>),
    Done,
}

impl View for RowAction {
    type V = RowActionView;

    open spec fn view(&self) -> RowActionView {
        match self {
            RowAction::Seek => RowActionView::Seek,
            RowAction::ReadRecord => RowActionView::ReadRecord,
            RowAction::Advance => RowActionView::Advance,
            RowAction::Delete => RowActionView::Delete,
            RowAction::Insert(v) => RowActionView::Insert(data(v@)),
            RowAction::Done => RowActionView::Done,
        }
    }
}

/// What has been done with storage.
#[derive(Debug)]
pub enum RowEvent {
    /// Nothing yet: asks again for what is to be done.
    Resume,
    Sought(SeekResult),
    /// The record, where it could be read.
    Record(Option<Vec<Value>>),
    /// The next entry was gone to; whether there is one.
    Advanced { at_row: bool },
    Deleted,
    Inserted,
}

#[verifier::ext_equal]
pub enum RowEventView {
    Resume,
    Sought(SeekResult),
    Record(Option<Seq<Datum>>),
    Advanced { at_row: bool },
    Deleted,
    Inserted,
}

impl View for RowEvent {
    type V = RowEventView;

    open spec fn view(&self) -> RowEventView {
        match self {
            RowEvent::Resume => RowEventView::Resume,
            RowEvent::Sought(s) => RowEventView::Sought(*s),
            RowEvent::Record(None) => RowEventView::Record(None),
            RowEvent::Record(Some(v)) => RowEventView::Record(Some(data(v@))),
            RowEvent::Advanced { at_row } => RowEventView::Advanced { at_row: *at_row },
            RowEvent::Deleted => RowEventView::Deleted,
            RowEvent::Inserted => RowEventView::Inserted,
        }
    }
}

/// The weight of a stored row, which is its last value.
pub open spec fn stored_weight(record: Seq<Datum>) -> Option<int> {
    if record.len() == 0 {
        None
    } else {
        match record.last() {
            Datum::Numeric(NumericView::Integer(w)) => Some(w as int),
            _ => None,
        }
    }
}

/// Whether a weight can be added to that of the record of an event.
pub open spec fn weights_fit(event: RowEventView, weight: int) -> bool {
    match event {
        RowEventView::Record(Some(r)) => match stored_weight(r) {
            Some(w) => i64::MIN <= w + weight <= i64::MAX,
            None => true,
        },
        _ => true,
    }
}

/// Why the weight of a record cannot be read.
pub open spec fn weight_error(record: Seq<Datum>, whose: Seq<char>) -> ErrorView {
    ErrorView::InternalError(
        if record.len() == 0 {
            "No weight value found in storage for "@ + whose
        } else {
            "Invalid weight value in storage for "@ + whose
        },
    )
}

fn read_weight(record: &Vec<Value>, whose: &str) -> (r: Result<i64, LimboError>)
    ensures
        match stored_weight(data(record@)) {
            Some(w) => r matches Ok(x) && x == w,
            None => r matches Err(e) && e@ == weight_error(data(record@), whose@),
        },
{
    if record.len() == 0 {
        let mut m = "No weight value found in storage for ".to_owned();
        m.append(whose);
        return Err(LimboError::InternalError(m));
    }
    assert(data(record@).last() == record@[record@.len() - 1]@);
    match &record[record.len() - 1] {
        Value::Numeric(Numeric::Integer(w)) => Ok(*w),
        _ => {
            let mut m = "Invalid weight value in storage for ".to_owned();
            m.append(whose);
            Err(LimboError::InternalError(m))
        },
    }
}

// Views without ORDER BY.

/// Writing a row of a view that is stored as a table.
#[derive(Debug, PartialEq, Eq, Clone, Copy, Structural)]
pub enum WriteRowView {
    GetRecord,
    Delete,
    /// Found, and being deleted.
    Deleting,
    Insert { final_weight: i64 },
    /// Its place is found, and it is being inserted.
    Inserting { final_weight: i64 },
    Done,
}

/// The name of a row in a message.
pub open spec fn row_name(rowid: i64) -> Seq<char> {
    "key TableRowId("@ + decimal_int(rowid as int) + ")"@
}

/// What follows once it is known that the row is not stored.
pub open spec fn table_absent(weight: int) -> (WriteRowView, RowActionView) {
    if weight <= 0 {
        (WriteRowView::Done, RowActionView::Done)
    } else {
        (WriteRowView::Insert { final_weight: weight as i64 }, RowActionView::Seek)
    }
}

/// What follows once it is known that the row is stored with the weight `stored`.
pub open spec fn table_present(stored: int, weight: int) -> (WriteRowView, RowActionView) {
    if stored + weight <= 0 {
        (WriteRowView::Deleting, RowActionView::Delete)
    } else {
        (WriteRowView::Insert { final_weight: (stored + weight) as i64 }, RowActionView::Seek)
    }
}

/// The next state, and what is to be done in it.
pub open spec fn table_step(
    state: WriteRowView,
    event: RowEventView,
    rowid: i64,
    values: Seq<Datum>,
    weight: int,
) -> Result<(WriteRowView, RowActionView), ErrorView> {
    match (state, event) {
        (WriteRowView::GetRecord, RowEventView::Sought(SeekResult::Found)) => Ok(
            (state, RowActionView::ReadRecord),
        ),
        (WriteRowView::GetRecord, RowEventView::Sought(_)) => Ok(table_absent(weight)),
        (WriteRowView::GetRecord, RowEventView::Record(None)) => Err(
            ErrorView::InternalError(
                "Found "@ + row_name(rowid) + " in storage but could not read record"@,
            ),
        ),
        (WriteRowView::GetRecord, RowEventView::Record(Some(r))) => match stored_weight(r) {
            Some(w) => Ok(table_present(w, weight)),
            None => Err(weight_error(r, row_name(rowid))),
        },
        (WriteRowView::GetRecord, _) => Ok((state, RowActionView::Seek)),
        (WriteRowView::Delete, _) => Ok((WriteRowView::Deleting, RowActionView::Delete)),
        (WriteRowView::Deleting, RowEventView::Deleted) => Ok(
            (WriteRowView::Done, RowActionView::Done),
        ),
        (WriteRowView::Deleting, _) => Ok((state, RowActionView::Delete)),
        (WriteRowView::Insert { final_weight }, RowEventView::Sought(_)) => Ok(
            (
                WriteRowView::Inserting { final_weight },
                RowActionView::Insert(table_record(values, final_weight as int)),
            ),
        ),
        (WriteRowView::Insert { .. }, _) => Ok((state, RowActionView::Seek)),
        (WriteRowView::Inserting { .. }, RowEventView::Inserted) => Ok(
            (WriteRowView::Done, RowActionView::Done),
        ),
        (WriteRowView::Inserting { final_weight }, _) => Ok(
            (state, RowActionView::Insert(table_record(values, final_weight as int))),
        ),
        (WriteRowView::Done, _) => Ok((state, RowActionView::Done)),
    }
}

fn name_row(rowid: i64) -> (r: String)
    ensures
        r@ == row_name(rowid),
{
    let mut m = "key TableRowId(".to_owned();
    m.append(decimal_i64(rowid).as_str());
    m.append(")");
    m
}

fn record_of(values: &Vec<Value>, weight: i64) -> (r: Vec<Value>)
    ensures
        data(r@) == table_record(data(values@), weight as int),
{
    let mut out = copy_values(values);
    let ghost before = out@;
    out.push(Value::from_i64(weight));
    assert(data(out@) =~= data(before).push(int_datum(weight as int)));
    out
}

impl WriteRowView {
    pub fn new() -> (r: Self)
        ensures
            r == WriteRowView::GetRecord,
    {
        WriteRowView::GetRecord
    }

    /// Goes on with writing a row: takes in what has been done with storage and tells what is to
    /// be done next. Whatever does not answer what was to be done counts as nothing done. An error
    /// leaves the writing where it stands.
    pub fn write_row(&mut self, event: RowEvent, rowid: i64, values: &Vec<Value>, weight: isize) -> (r:
        Result<RowAction, LimboError>)
        requires
            weights_fit(event@, weight as int),
        ensures
            match table_step(*old(self), event@, rowid, data(values@), weight as int) {
                Ok(n) => r matches Ok(a) && a@ == n.1 && *final(self) == n.0,
                Err(e) => r matches Err(err) && err@ == e && *final(self) == *old(self),
            },
    {
        match *self {
            WriteRowView::GetRecord => match event {
                RowEvent::Sought(SeekResult::Found) => Ok(RowAction::ReadRecord),
                RowEvent::Sought(_) => {
                    if weight <= 0 {
                        *self = WriteRowView::Done;
                        Ok(RowAction::Done)
                    } else {
                        *self = WriteRowView::Insert { final_weight: weight as i64 };
                        Ok(RowAction::Seek)
                    }
                },
                RowEvent::Record(None) => {
                    let mut m = "Found ".to_owned();
                    m.append(name_row(rowid).as_str());
                    m.append(" in storage but could not read record");
                    Err(LimboError::InternalError(m))
                },
                RowEvent::Record(Some(record)) => {
                    let stored = match read_weight(&record, name_row(rowid).as_str()) {
                        Ok(w) => w,
                        Err(e) => return Err(e),
                    };
                    let final_weight: i64 = stored + weight as i64;
                    if final_weight <= 0 {
                        *self = WriteRowView::Deleting;
                        Ok(RowAction::Delete)
                    } else {
                        *self = WriteRowView::Insert { final_weight };
                        Ok(RowAction::Seek)
                    }
                },
                _ => Ok(RowAction::Seek),
            },
            WriteRowView::Delete => {
                *self = WriteRowView::Deleting;
                Ok(RowAction::Delete)
            },
            WriteRowView::Deleting => match event {
                RowEvent::Deleted => {
                    *self = WriteRowView::Done;
                    Ok(RowAction::Done)
                },
                _ => Ok(RowAction::Delete),
            },
            WriteRowView::Insert { final_weight } => match event {
                RowEvent::Sought(_) => {
                    *self = WriteRowView::Inserting { final_weight };
                    Ok(RowAction::Insert(record_of(values, final_weight)))
                },
                _ => Ok(RowAction::Seek),
            },
            WriteRowView::Inserting { final_weight } => match event {
                RowEvent::Inserted => {
                    *self = WriteRowView::Done;
                    Ok(RowAction::Done)
                },
                _ => Ok(RowAction::Insert(record_of(values, final_weight))),
            },
            WriteRowView::Done => Ok(RowAction::Done),
        }
    }
}

impl Default for WriteRowView {
    fn default() -> (r: Self)
        ensures
            r == WriteRowView::GetRecord,
    {
        WriteRowView::GetRecord
    }
}

// Views with ORDER BY.

/// Writing a row of a view that is stored as an index. `sought` says whether storage has been
/// turned to in the state.
#[allow(inconsistent_fields)]
#[derive(Debug)]
pub enum WriteRowViewIndex {
    GetRecord { sought: bool },
    Deleting { sought: bool },
    Inserting { sought: bool, final_weight: i64, full_record: Vec<Value> },
    Done,
}

#[allow(inconsistent_fields)]
#[verifier::ext_equal]
pub enum WriteRowViewIndexView {
    GetRecord { sought: bool },
    Deleting { sought: bool },
    Inserting { sought: bool, final_weight: i64, full_record: Seq<Datum> },
    Done,
}

impl View for WriteRowViewIndex {
    type V = WriteRowViewIndexView;

    open spec fn view(&self) -> WriteRowViewIndexView {
        match self {
            WriteRowViewIndex::GetRecord { sought } => WriteRowViewIndexView::GetRecord {
                sought: *sought,
            },
            WriteRowViewIndex::Deleting { sought } => WriteRowViewIndexView::Deleting {
                sought: *sought,
            },
            WriteRowViewIndex::Inserting { sought, final_weight, full_record } => {
                WriteRowViewIndexView::Inserting {
                    sought: *sought,
                    final_weight: *final_weight,
                    full_record: data(full_record@),
                }
            },
            WriteRowViewIndex::Done => WriteRowViewIndexView::Done,
        }
    }
}

/// A record with another weight.
pub open spec fn reweighed(record: Seq<Datum>, weight: int) -> Seq<Datum> {
    record.update(record.len() - 1, int_datum(weight))
}

/// Inserting a record.
pub open spec fn index_insert(record: Seq<Datum>, weight: int) -> (
    WriteRowViewIndexView,
    RowActionView,
) {
    (
        WriteRowViewIndexView::Inserting {
            sought: true,
            final_weight: weight as i64,
            full_record: record,
        },
        RowActionView::Insert(record),
    )
}

/// What follows once it is known that the row is not stored.
pub open spec fn index_absent(record: Seq<Datum>, weight: int) -> (
    WriteRowViewIndexView,
    RowActionView,
) {
    if weight <= 0 {
        (WriteRowViewIndexView::Done, RowActionView::Done)
    } else {
        index_insert(record, weight)
    }
}

/// What follows once it is known that the row is stored with the weight `stored`.
pub open spec fn index_present(record: Seq<Datum>, stored: int, weight: int) -> (
    WriteRowViewIndexView,
    RowActionView,
) {
    if stored + weight <= 0 {
        (WriteRowViewIndexView::Deleting { sought: true }, RowActionView::Delete)
    } else {
        index_insert(reweighed(record, stored + weight), stored + weight)
    }
}

/// The next state, and what is to be done in it. `record` is the row as it is stored with the
/// weight that is to be written.
pub open spec fn index_step(
    state: WriteRowViewIndexView,
    event: RowEventView,
    record: Seq<Datum>,
    weight: int,
) -> Result<(WriteRowViewIndexView, RowActionView), ErrorView> {
    match (state, event) {
        (
            WriteRowViewIndexView::GetRecord { .. },
            RowEventView::Sought(SeekResult::Found),
        ) => Ok((state, RowActionView::ReadRecord)),
        (
            WriteRowViewIndexView::GetRecord { .. },
            RowEventView::Sought(SeekResult::TryAdvance),
        ) => Ok((state, RowActionView::Advance)),
        (
            WriteRowViewIndexView::GetRecord { .. },
            RowEventView::Sought(SeekResult::NotFound),
        ) => Ok(index_absent(record, weight)),
        (
            WriteRowViewIndexView::GetRecord { .. },
            RowEventView::Advanced { at_row: false },
        ) => Ok(index_absent(record, weight)),
        (WriteRowViewIndexView::GetRecord { .. }, RowEventView::Record(None)) => Err(
            ErrorView::InternalError(
                "Found composite key in storage but could not read record"@,
            ),
        ),
        (WriteRowViewIndexView::GetRecord { .. }, RowEventView::Record(Some(r))) => {
            match stored_weight(r) {
                Some(w) => Ok(index_present(record, w, weight)),
                None => Err(weight_error(r, "index key"@)),
            }
        },
        (WriteRowViewIndexView::GetRecord { .. }, _) => Ok(
            (WriteRowViewIndexView::GetRecord { sought: true }, RowActionView::Seek),
        ),
        (WriteRowViewIndexView::Deleting { .. }, RowEventView::Deleted) => Ok(
            (WriteRowViewIndexView::Done, RowActionView::Done),
        ),
        (WriteRowViewIndexView::Deleting { .. }, _) => Ok(
            (WriteRowViewIndexView::Deleting { sought: true }, RowActionView::Delete),
        ),
        (WriteRowViewIndexView::Inserting { .. }, RowEventView::Inserted) => Ok(
            (WriteRowViewIndexView::Done, RowActionView::Done),
        ),
        (WriteRowViewIndexView::Inserting { final_weight, full_record, .. }, _) => Ok(
            index_insert(full_record, final_weight as int),
        ),
        (WriteRowViewIndexView::Done, _) => Ok((state, RowActionView::Done)),
    }
}

impl WriteRowViewIndex {
    pub fn new() -> (r: Self)
        ensures
            r@ == (WriteRowViewIndexView::GetRecord { sought: false }),
    {
        WriteRowViewIndex::GetRecord { sought: false }
    }

    /// Goes on with writing a row, as `WriteRowView::write_row` does. `full_record` is the row as
    /// it is stored with the weight that is to be written.
    pub fn write_row(&mut self, event: RowEvent, full_record: &Vec<Value>, weight: isize) -> (r:
        Result<RowAction, LimboError>)
        requires
            full_record@.len() > 0,
            weights_fit(event@, weight as int),
        ensures
            match index_step(old(self)@, event@, data(full_record@), weight as int) {
                Ok(n) => r matches Ok(a) && a@ == n.1 && final(self)@ == n.0,
                Err(e) => r matches Err(err) && err@ == e && *final(self) == *old(self),
            },
    {
        match self {
            WriteRowViewIndex::GetRecord { sought: _ } => match event {
                RowEvent::Sought(SeekResult::Found) => Ok(RowAction::ReadRecord),
                RowEvent::Sought(SeekResult::TryAdvance) => Ok(RowAction::Advance),
                RowEvent::Sought(SeekResult::NotFound) => Ok(
                    self.insert_new(full_record, weight),
                ),
                RowEvent::Advanced { at_row: false } => Ok(self.insert_new(full_record, weight)),
                RowEvent::Record(None) => Err(
                    LimboError::InternalError(
                        "Found composite key in storage but could not read record".to_owned(),
                    ),
                ),
                RowEvent::Record(Some(record)) => {
                    let stored = match read_weight(&record, "index key") {
                        Ok(w) => w,
                        Err(e) => return Err(e),
                    };
                    let final_weight: i64 = stored + weight as i64;
                    if final_weight <= 0 {
                        *self = WriteRowViewIndex::Deleting { sought: true };
                        Ok(RowAction::Delete)
                    } else {
                        let mut values = copy_values(full_record);
                        let ghost before = values@;
                        let last: usize = values.len() - 1;
                        values.set(last, Value::from_i64(final_weight));
                        assert(data(values@) =~= reweighed(data(before), final_weight as int));
                        let action = RowAction::Insert(copy_values(&values));
                        *self =
                        WriteRowViewIndex::Inserting {
                            sought: true,
                            final_weight,
                            full_record: values,
                        };
                        Ok(action)
                    }
                },
                _ => {
                    *self = WriteRowViewIndex::GetRecord { sought: true };
                    Ok(RowAction::Seek)
                },
            },
            WriteRowViewIndex::Deleting { sought: _ } => match event {
                RowEvent::Deleted => {
                    *self = WriteRowViewIndex::Done;
                    Ok(RowAction::Done)
                },
                _ => {
                    *self = WriteRowViewIndex::Deleting { sought: true };
                    Ok(RowAction::Delete)
                },
            },
            WriteRowViewIndex::Inserting { sought: _, final_weight, full_record: record } => {
                match event {
                    RowEvent::Inserted => {
                        *self = WriteRowViewIndex::Done;
                        Ok(RowAction::Done)
                    },
                    _ => {
                        let final_weight: i64 = *final_weight;
                        let action = RowAction::Insert(copy_values(record));
                        let again = copy_values(record);
                        *self =
                        WriteRowViewIndex::Inserting {
                            sought: true,
                            final_weight,
                            full_record: again,
                        };
                        Ok(action)
                    },
                }
            },
            WriteRowViewIndex::Done => Ok(RowAction::Done),
        }
    }

    fn insert_new(&mut self, full_record: &Vec<Value>, weight: isize) -> (r: RowAction)
        ensures
            (final(self)@, r@) == index_absent(data(full_record@), weight as int),
    {
        if weight <= 0 {
            *self = WriteRowViewIndex::Done;
            RowAction::Done
        } else {
            *self =
            WriteRowViewIndex::Inserting {
                sought: true,
                final_weight: weight as i64,
                full_record: copy_values(full_record),
            };
            RowAction::Insert(copy_values(full_record))
        }
    }
}

impl Default for WriteRowViewIndex {
    fn default() -> (r: Self)
        ensures
            r@ == (WriteRowViewIndexView::GetRecord { sought: false }),
    {
        WriteRowViewIndex::new()
    }
}

// What the machines come to.

/// What storage does, where the key of the row holds `slot`: what the key holds afterwards, and
/// what is reported.
pub open spec fn answer(slot: Option<Seq<Datum>>, action: RowActionView) -> (
    Option<Seq<Datum>>,
    RowEventView,
) {
    match action {
        RowActionView::Seek => (
            slot,
            RowEventView::Sought(
                if slot is Some {
                    SeekResult::Found
                } else {
                    SeekResult::NotFound
                },
            ),
        ),
        RowActionView::ReadRecord => (slot, RowEventView::Record(slot)),
        RowActionView::Advance => (slot, RowEventView::Advanced { at_row: slot is Some }),
        RowActionView::Delete => (None, RowEventView::Deleted),
        RowActionView::Insert(r) => (Some(r), RowEventView::Inserted),
        RowActionView::Done => (slot, RowEventView::Resume),
    }
}

/// What the key of a row of a table holds once the machine is done, if it is within `steps` steps.
pub open spec fn table_run(
    state: WriteRowView,
    event: RowEventView,
    slot: Option<Seq<Datum>>,
    rowid: i64,
    values: Seq<Datum>,
    weight: int,
    steps: nat,
) -> Option<Option<Seq<Datum>>>
    decreases steps,
{
    match table_step(state, event, rowid, values, weight) {
        Err(_) => None,
        Ok(n) => if n.1 == RowActionView::Done {
            Some(slot)
        } else if steps == 0 {
            None
        } else {
            let a = answer(slot, n.1);
            table_run(n.0, a.1, a.0, rowid, values, weight, (steps - 1) as nat)
        },
    }
}

/// Searches that end between two leaves before one does not: how many, and whether there is no entry
/// past the last of them.
#[verifier::ext_equal]
pub struct Crossings {
    pub left: nat,
    pub past_end: bool,
}

/// What storage does where searches may end between two leaves: as `answer`, and which such searches
/// are still to come. To go to the next entry crosses over to the next leaf.
pub open spec fn answer_across(
    slot: Option<Seq<Datum>>,
    action: RowActionView,
    crossings: Crossings,
) -> (Option<Seq<Datum>>, RowEventView, Crossings) {
    match action {
        RowActionView::Seek => if crossings.left > 0 {
            (slot, RowEventView::Sought(SeekResult::TryAdvance), crossings)
        } else {
            (slot, answer(slot, action).1, crossings)
        },
        RowActionView::Advance => (
            slot,
            RowEventView::Advanced { at_row: !(crossings.left == 1 && crossings.past_end) },
            Crossings { left: (crossings.left - 1) as nat, ..crossings },
        ),
        _ => (answer(slot, action).0, answer(slot, action).1, crossings),
    }
}

/// What the key of a row of an index holds once the machine is done, if it is within `steps`
/// steps.
pub open spec fn index_run(
    state: WriteRowViewIndexView,
    event: RowEventView,
    slot: Option<Seq<Datum>>,
    record: Seq<Datum>,
    weight: int,
    crossings: Crossings,
    steps: nat,
) -> Option<Option<Seq<Datum>>>
    decreases steps,
{
    match index_step(state, event, record, weight) {
        Err(_) => None,
        Ok(n) => if n.1 == RowActionView::Done {
            Some(slot)
        } else if steps == 0 {
            None
        } else {
            let a = answer_across(slot, n.1, crossings);
            index_run(n.0, a.1, a.0, record, weight, a.2, (steps - 1) as nat)
        },
    }
}

/// The weight that a key has once a weight has been written to it, where it has one.
pub open spec fn summed(stored: Option<int>, weight: int) -> Option<int> {
    let sum = match stored {
        Some(w) => w + weight,
        None => weight,
    };
    if sum <= 0 {
        None
    } else {
        Some(sum)
    }
}

pub open spec fn slot_weight(slot: Option<Seq<Datum>>) -> Option<int> {
    match slot {
        Some(r) => stored_weight(r),
        None => None,
    }
}

/// Writing a row of a table adds its weight to the stored one and keeps the row as long as the sum
/// is positive.
pub proof fn law_table_writes_add_weights(
    slot: Option<Seq<Datum>>,
    rowid: i64,
    values: Seq<Datum>,
    weight: int,
)
    requires
        slot matches Some(r) ==> stored_weight(r) is Some,
    ensures
        table_run(WriteRowView::GetRecord, RowEventView::Resume, slot, rowid, values, weight, 5)
            == Some(
            match summed(slot_weight(slot), weight) {
                Some(w) => Some(table_record(values, w)),
                None => None,
            },
        ),
{
    reveal_with_fuel(table_run, 6);
}

proof fn lemma_index_run(
    sought: bool,
    event: RowEventView,
    slot: Option<Seq<Datum>>,
    record: Seq<Datum>,
    weight: int,
    crossings: Crossings,
)
    requires
        event is Resume || event == (RowEventView::Advanced { at_row: true }),
        slot matches Some(r) ==> stored_weight(r) is Some,
        crossings.left > 0 && crossings.past_end ==> slot is None,
        record.len() > 0,
        record.last() == int_datum(weight),
    ensures
        index_run(
            WriteRowViewIndexView::GetRecord { sought },
            event,
            slot,
            record,
            weight,
            crossings,
            2 * crossings.left + 4,
        ) == Some(
            match summed(slot_weight(slot), weight) {
                Some(w) => Some(reweighed(record, w)),
                None => None,
            },
        ),
    decreases crossings.left,
{
    assert(reweighed(record, weight) =~= record);
    let state = WriteRowViewIndexView::GetRecord { sought: true };
    let steps = 2 * crossings.left + 4;
    if crossings.left == 0 {
        reveal_with_fuel(index_run, 5);
    } else {
        let rest = Crossings { left: (crossings.left - 1) as nat, ..crossings };
        let advanced = RowEventView::Advanced {
            at_row: !(crossings.left == 1 && crossings.past_end),
        };
        let first = WriteRowViewIndexView::GetRecord { sought };
        let r = index_run(first, event, slot, record, weight, crossings, steps);
        let e = RowEventView::Sought(SeekResult::TryAdvance);
        assert(r == index_run(state, e, slot, record, weight, crossings, (steps - 1) as nat));
        assert(r == index_run(state, advanced, slot, record, weight, rest, (steps - 2) as nat));
        if crossings.left == 1 && crossings.past_end {
            reveal_with_fuel(index_run, 5);
        } else {
            lemma_index_run(true, advanced, slot, record, weight, rest);
        }
    }
}

/// Writing a row of an index adds its weight to the stored one and keeps the row as long as the sum
/// is positive, however many searches end between two leaves first.
pub proof fn law_index_writes_add_weights(
    slot: Option<Seq<Datum>>,
    record: Seq<Datum>,
    weight: int,
    crossings: Crossings,
)
    requires
        slot matches Some(r) ==> stored_weight(r) is Some,
        crossings.left > 0 && crossings.past_end ==> slot is None,
        record.len() > 0,
        record.last() == int_datum(weight),
    ensures
        index_run(
            WriteRowViewIndexView::GetRecord { sought: false },
            RowEventView::Resume,
            slot,
            record,
            weight,
            crossings,
            2 * crossings.left + 4,
        ) == Some(
            match summed(slot_weight(slot), weight) {
                Some(w) => Some(reweighed(record, w)),
                None => None,
            },
        ),
{
    lemma_index_run(false, RowEventView::Resume, slot, record, weight, crossings);
}

/// A machine that is asked again before it is answered says the same again.
pub proof fn law_asking_again_changes_nothing(
    state: WriteRowView,
    event: RowEventView,
    rowid: i64,
    values: Seq<Datum>,
    weight: int,
)
    requires
        table_step(state, event, rowid, values, weight) is Ok,
        table_step(state, event, rowid, values, weight)->Ok_0.1 != RowActionView::ReadRecord,
    ensures
        table_step(
            table_step(state, event, rowid, values, weight)->Ok_0.0,
            RowEventView::Resume,
            rowid,
            values,
            weight,
        ) == table_step(state, event, rowid, values, weight),
{
}

} // verus!
