//! Reading what an antijoin has stored.
//!
//! An operator keeps its state in a table of five columns: storage id, key, element id, value, and
//! weight. An index over the first three leads to the row id of each entry.

use vstd::prelude::*;

use crate::error::{ErrorView, LimboError};
use crate::value::{
    copy_bytes, copy_values, data, int_datum, same_bytes, Datum, HashableRow, Numeric,
    NumericView, RowView, Value,
};
use crate::write_row::SeekResult;

verus! {

// Counting the right rows under a key.

/// Where the reading of a count stands.
#[derive(Debug, PartialEq, Eq, Clone, Copy, Structural)]
pub enum CountProbe {
    /// The entry is looked for in the index.
    Seeking,
    /// The index was left between two leaves and is being moved on.
    Advancing,
    /// The index entry is read, to see that it is the right one.
    Checking,
    /// The row id of the entry is read.
    Locating,
    /// The entry is looked for in the table.
    Fetching { rowid: i64 },
    /// The entry is read.
    Reading { rowid: i64 },
    Done { count: i64 },
}

/// What is to be done with the stored state.
#[derive(Debug, PartialEq, Eq, Clone, Copy, Structural)]
pub enum ProbeAction {
    /// Search the index for the very entry.
    SeekIndex,
    NextIndex,
    ReadIndex,
    ReadRowid,
    SeekTable { rowid: i64 },
    ReadTable,
    Done { count: i64 },
}

/// What has been done with the stored state.
#[derive(Debug)]
pub enum ProbeEvent {
    /// Nothing yet: asks again for what is to be done.
    Resume,
    Sought(SeekResult),
    /// The index was moved on; whether it stands at an entry.
    Moved { has_record: bool },
    Record(Option<Vec<Value>>),
    Rowid(Option<i64>),
    /// The table was searched.
    Fetched,
}

#[verifier::ext_equal]
pub enum ProbeEventView {
    Resume,
    Sought(SeekResult),
    Moved { has_record: bool },
    Record(Option<Seq<Datum>>),
    Rowid(Option<i64>),
    Fetched,
}

impl View for ProbeEvent {
    type V = ProbeEventView;

    open spec fn view(&self) -> ProbeEventView {
        match self {
            ProbeEvent::Resume => ProbeEventView::Resume,
            ProbeEvent::Sought(r) => ProbeEventView::Sought(*r),
            ProbeEvent::Moved { has_record } => ProbeEventView::Moved { has_record: *has_record },
            ProbeEvent::Record(None) => ProbeEventView::Record(None),
            ProbeEvent::Record(Some(v)) => ProbeEventView::Record(Some(data(v@))),
            ProbeEvent::Rowid(r) => ProbeEventView::Rowid(*r),
            ProbeEvent::Fetched => ProbeEventView::Fetched,
        }
    }
}

/// Whether an index entry is that of a key.
pub open spec fn entry_matches(entry: Seq<Datum>, storage_id: i64, key: Seq<u8>) -> bool {
    &&& entry.len() >= 3
    &&& entry[0] == int_datum(storage_id as int)
    &&& entry[1] == Datum::Blob(key)
}

/// The weight in a row of the state table.
pub open spec fn row_weight(row: Seq<Datum>) -> i64 {
    match row[4] {
        Datum::Numeric(NumericView::Integer(w)) => w,
        _ => 0,
    }
}

/// Whether an event is a row of the state table that has no weight.
pub open spec fn lacks_weight(state: CountProbe, event: ProbeEventView) -> bool {
    state is Reading && (event matches ProbeEventView::Record(Some(row)) && row.len() < 5)
}

pub open spec fn counted(count: i64) -> (CountProbe, ProbeAction) {
    (CountProbe::Done { count }, ProbeAction::Done { count })
}

/// The next state, and what is to be done in it.
pub open spec fn probe_step(
    state: CountProbe,
    event: ProbeEventView,
    storage_id: i64,
    key: Seq<u8>,
) -> (CountProbe, ProbeAction) {
    match (state, event) {
        (CountProbe::Seeking, ProbeEventView::Sought(SeekResult::Found)) => (
            CountProbe::Checking,
            ProbeAction::ReadIndex,
        ),
        (CountProbe::Seeking, ProbeEventView::Sought(SeekResult::NotFound)) => counted(0),
        (CountProbe::Seeking, ProbeEventView::Sought(SeekResult::TryAdvance)) => (
            CountProbe::Advancing,
            ProbeAction::NextIndex,
        ),
        (CountProbe::Seeking, _) => (state, ProbeAction::SeekIndex),
        (CountProbe::Advancing, ProbeEventView::Moved { has_record }) => if has_record {
            (CountProbe::Checking, ProbeAction::ReadIndex)
        } else {
            counted(0)
        },
        (CountProbe::Advancing, _) => (state, ProbeAction::NextIndex),
        (CountProbe::Checking, ProbeEventView::Record(entry)) => {
            if entry matches Some(e) && entry_matches(e, storage_id, key) {
                (CountProbe::Locating, ProbeAction::ReadRowid)
            } else {
                counted(0)
            }
        },
        (CountProbe::Checking, _) => (state, ProbeAction::ReadIndex),
        (CountProbe::Locating, ProbeEventView::Rowid(None)) => counted(0),
        (CountProbe::Locating, ProbeEventView::Rowid(Some(rowid))) => (
            CountProbe::Fetching { rowid },
            ProbeAction::SeekTable { rowid },
        ),
        (CountProbe::Locating, _) => (state, ProbeAction::ReadRowid),
        (CountProbe::Fetching { rowid }, ProbeEventView::Fetched) => (
            CountProbe::Reading { rowid },
            ProbeAction::ReadTable,
        ),
        (CountProbe::Fetching { rowid }, _) => (state, ProbeAction::SeekTable { rowid }),
        (CountProbe::Reading { .. }, ProbeEventView::Record(None)) => counted(0),
        (CountProbe::Reading { .. }, ProbeEventView::Record(Some(row))) => counted(
            row_weight(row),
        ),
        (CountProbe::Reading { .. }, _) => (state, ProbeAction::ReadTable),
        (CountProbe::Done { count }, _) => counted(count),
    }
}

fn is_entry_of(entry: &Vec<Value>, storage_id: i64, key: &Vec<u8>) -> (r: bool)
    ensures
        r == entry_matches(data(entry@), storage_id, key@),
{
    if entry.len() < 3 {
        return false;
    }
    assert(data(entry@)[0] == entry@[0]@);
    assert(data(entry@)[1] == entry@[1]@);
    let id_matches = match &entry[0] {
        Value::Numeric(Numeric::Integer(id)) => *id == storage_id,
        _ => false,
    };
    match &entry[1] {
        Value::Blob(b) => {
            let same = same_bytes(b, key);
            id_matches && same
        },
        _ => false,
    }
}

impl CountProbe {
    /// Starts to read a count. An operator without stored state has counted nothing.
    pub fn new(has_storage: bool) -> (r: Self)
        ensures
            r == (if has_storage {
                CountProbe::Seeking
            } else {
                CountProbe::Done { count: 0 }
            }),
    {
        if has_storage {
            CountProbe::Seeking
        } else {
            CountProbe::Done { count: 0 }
        }
    }

    /// The index entry that is looked for.
    pub fn index_key(storage_id: i64, key: &Vec<u8>) -> (r: Vec<Value>)
        ensures
            data(r@) == seq![
                int_datum(storage_id as int),
                Datum::Blob(key@),
                Datum::Blob(Seq::new(16, |i: int| 0u8)),
            ],
    {
        let mut zeros: Vec<u8> = Vec::new();
        let mut i: usize = 0;
        while i < 16
            invariant
                i <= 16,
                zeros@.len() == i,
                forall|j: int| 0 <= j < i ==> #[trigger] zeros@[j] == 0u8,
            decreases 16 - i,
        {
            zeros.push(0);
            i += 1;
        }
        assert(zeros@ =~= Seq::new(16, |i: int| 0u8));
        let mut out: Vec<Value> = Vec::new();
        out.push(Value::from_i64(storage_id));
        out.push(Value::Blob(copy_bytes(key)));
        out.push(Value::Blob(zeros));
        assert(data(out@) =~= seq![
            int_datum(storage_id as int),
            Datum::Blob(key@),
            Datum::Blob(Seq::new(16, |i: int| 0u8)),
        ]);
        out
    }

    /// Goes on with reading a count. A search that ends between two leaves does not mean that the
    /// entry is missing: it may be the next one, which is therefore looked at. A row without a weight
    /// is an error, which leaves the reading where it stands.
    pub fn read_r_count(&mut self, event: ProbeEvent, storage_id: i64, key: &Vec<u8>) -> (r: Result<
        ProbeAction,
        LimboError,
    >)
        ensures
            if lacks_weight(*old(self), event@) {
                &&& r matches Err(e) && e@ == ErrorView::Corrupt(
                    "a row of the state table has no weight"@,
                )
                &&& *final(self) == *old(self)
            } else {
                r matches Ok(a) && (*final(self), a) == probe_step(
                    *old(self),
                    event@,
                    storage_id,
                    key@,
                )
            },
    {
        Ok(match *self {
            CountProbe::Seeking => match event {
                ProbeEvent::Sought(SeekResult::Found) => {
                    *self = CountProbe::Checking;
                    ProbeAction::ReadIndex
                },
                ProbeEvent::Sought(SeekResult::NotFound) => self.finish(0),
                ProbeEvent::Sought(SeekResult::TryAdvance) => {
                    *self = CountProbe::Advancing;
                    ProbeAction::NextIndex
                },
                _ => ProbeAction::SeekIndex,
            },
            CountProbe::Advancing => match event {
                ProbeEvent::Moved { has_record } => if has_record {
                    *self = CountProbe::Checking;
                    ProbeAction::ReadIndex
                } else {
                    self.finish(0)
                },
                _ => ProbeAction::NextIndex,
            },
            CountProbe::Checking => match event {
                ProbeEvent::Record(None) => self.finish(0),
                ProbeEvent::Record(Some(entry)) => if is_entry_of(&entry, storage_id, key) {
                    *self = CountProbe::Locating;
                    ProbeAction::ReadRowid
                } else {
                    self.finish(0)
                },
                _ => ProbeAction::ReadIndex,
            },
            CountProbe::Locating => match event {
                ProbeEvent::Rowid(None) => self.finish(0),
                ProbeEvent::Rowid(Some(rowid)) => {
                    *self = CountProbe::Fetching { rowid };
                    ProbeAction::SeekTable { rowid }
                },
                _ => ProbeAction::ReadRowid,
            },
            CountProbe::Fetching { rowid } => match event {
                ProbeEvent::Fetched => {
                    *self = CountProbe::Reading { rowid };
                    ProbeAction::ReadTable
                },
                _ => ProbeAction::SeekTable { rowid },
            },
            CountProbe::Reading { rowid: _ } => match event {
                ProbeEvent::Record(None) => self.finish(0),
                ProbeEvent::Record(Some(row)) => {
                    if row.len() < 5 {
                        return Err(
                            LimboError::Corrupt(
                                "a row of the state table has no weight".to_owned(),
                            ),
                        );
                    }
                    assert(data(row@)[4] == row@[4]@);
                    let count: i64 = match &row[4] {
                        Value::Numeric(Numeric::Integer(w)) => *w,
                        _ => 0,
                    };
                    self.finish(count)
                },
                _ => ProbeAction::ReadTable,
            },
            CountProbe::Done { count } => ProbeAction::Done { count },
        })
    }

    fn finish(&mut self, count: i64) -> (r: ProbeAction)
        ensures
            (*final(self), r) == counted(count),
    {
        *self = CountProbe::Done { count };
        ProbeAction::Done { count }
    }
}

/// How an entry is stored: the index may be left just before it, and it is the next one; or it is
/// not stored, and the index is left before another entry or at its end.
pub struct StoredCount {
    /// The row id and the row of the entry, where it is stored.
    pub entry: Option<(i64, Seq<Datum>)>,
    /// Whether a search is left between two leaves.
    pub between: bool,
    /// The index entry that a search between two leaves is left before, where there is one.
    pub next: Option<Seq<Datum>>,
}

/// Whether the index is in keeping with what is stored.
pub open spec fn in_keeping(s: StoredCount, storage_id: i64, key: Seq<u8>) -> bool {
    &&& s.entry is Some ==> (s.next matches Some(e) && entry_matches(e, storage_id, key))
    &&& s.entry is None && s.between ==> !(s.next matches Some(e) && entry_matches(
        e,
        storage_id,
        key,
    ))
    &&& s.entry matches Some(e) ==> e.1.len() >= 5
}

/// What the stored state answers.
pub open spec fn probe_answer(s: StoredCount, action: ProbeAction) -> ProbeEventView {
    match action {
        ProbeAction::SeekIndex => ProbeEventView::Sought(
            if s.between {
                SeekResult::TryAdvance
            } else if s.entry is Some {
                SeekResult::Found
            } else {
                SeekResult::NotFound
            },
        ),
        ProbeAction::NextIndex => ProbeEventView::Moved { has_record: s.next is Some },
        ProbeAction::ReadIndex => ProbeEventView::Record(s.next),
        ProbeAction::ReadRowid => ProbeEventView::Rowid(
            match s.entry {
                Some(e) => Some(e.0),
                None => None,
            },
        ),
        ProbeAction::SeekTable { .. } => ProbeEventView::Fetched,
        ProbeAction::ReadTable => ProbeEventView::Record(
            match s.entry {
                Some(e) => Some(e.1),
                None => None,
            },
        ),
        ProbeAction::Done { .. } => ProbeEventView::Resume,
    }
}

/// The count that a probe comes to within some steps.
pub open spec fn probe_run(
    state: CountProbe,
    event: ProbeEventView,
    s: StoredCount,
    storage_id: i64,
    key: Seq<u8>,
    steps: nat,
) -> Option<i64>
    decreases steps,
{
    let n = probe_step(state, event, storage_id, key);
    match n.1 {
        ProbeAction::Done { count } => Some(count),
        action => if steps == 0 {
            None
        } else {
            probe_run(n.0, probe_answer(s, action), s, storage_id, key, (steps - 1) as nat)
        },
    }
}

/// A probe comes to the weight that is stored, wherever a search for it is left, and to nothing
/// where none is stored.
pub proof fn law_probes_find_the_count(s: StoredCount, storage_id: i64, key: Seq<u8>)
    requires
        in_keeping(s, storage_id, key),
    ensures
        probe_run(CountProbe::Seeking, ProbeEventView::Resume, s, storage_id, key, 6) == Some(
            match s.entry {
                Some(e) => row_weight(e.1),
                None => 0i64,
            },
        ),
{
    reveal_with_fuel(probe_run, 7);
}

// Storing left rows.

/// The values that a left row is stored as.
pub open spec fn l_row_values(row: RowView) -> Seq<Datum> {
    seq![int_datum(row.rowid as int)] + row.values
}

/// Turns a left row into the values that it is stored as.
pub fn serialize_l_row(row: &HashableRow) -> (r: Vec<Value>)
    ensures
        data(r@) == l_row_values(row@),
{
    let mut out: Vec<Value> = Vec::new();
    out.push(Value::from_i64(row.rowid));
    let mut rest = copy_values(&row.values);
    let ghost a = out@;
    let ghost b = rest@;
    out.append(&mut rest);
    assert(data(out@) =~= data(a) + data(b));
    assert(data(a) =~= seq![int_datum(row.rowid as int)]);
    out
}

/// Turns the values that a left row is stored as back into the row.
pub fn deserialize_l_row(values: &Vec<Value>) -> (r: Result<HashableRow, LimboError>)
    ensures
        if values@.len() == 0 {
            r matches Err(e) && e@ == ErrorView::InternalError(
                "L row blob must contain at least rowid"@,
            )
        } else {
            match data(values@)[0] {
                Datum::Numeric(NumericView::Integer(id)) => r matches Ok(row) && row@.rowid == id
                    && row@.values == data(values@).skip(1),
                _ => r matches Err(e) && e@ == ErrorView::InternalError(
                    "First value must be rowid (integer)"@,
                ),
            }
        },
{
    if values.len() == 0 {
        return Err(LimboError::InternalError("L row blob must contain at least rowid".to_owned()));
    }
    assert(data(values@)[0] == values@[0]@);
    let rowid: i64 = match &values[0] {
        Value::Numeric(Numeric::Integer(id)) => *id,
        _ => return Err(
            LimboError::InternalError("First value must be rowid (integer)".to_owned()),
        ),
    };
    let mut rest: Vec<Value> = Vec::new();
    let mut i: usize = 1;
    assert(data(rest@) =~= data(values@).subrange(1, 1));
    while i < values.len()
        invariant
            1 <= i <= values.len(),
            data(rest@) == data(values@).subrange(1, i as int),
        decreases values.len() - i,
    {
        let ghost before = rest@;
        rest.push(values[i].clone());
        assert(data(rest@) =~= data(before).push(data(values@)[i as int]));
        assert(data(rest@) =~= data(values@).subrange(1, i + 1));
        i += 1;
    }
    assert(data(values@).subrange(1, i as int) =~= data(values@).skip(1));
    Ok(HashableRow::new(rowid, rest))
}

/// A left row is what its stored values stand for.
pub proof fn law_left_rows_read_back(row: RowView)
    ensures
        l_row_values(row).len() > 0,
        l_row_values(row)[0] == Datum::Numeric(NumericView::Integer(row.rowid)),
        l_row_values(row).skip(1) == row.values,
{
    assert(l_row_values(row).skip(1) =~= row.values);
}

} // verus!
