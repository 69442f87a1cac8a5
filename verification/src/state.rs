//! The persisted state of incremental operators.
//!
//! Every operator keeps weighted entries under storage ids of its own. An entry is addressed by a
//! storage id, a key and, where the shard holds rows, a row; its weight is the running total of
//! everything written to that address. An address whose total is zero has no entry.

use vstd::prelude::*;

use crate::value::{copy_values, data, same_values, Datum, HashableRow, RowView, Value};
use crate::zset::{
    abs, lemma_mass_push, lemma_mass_update, lemma_weight_absent, lemma_weight_distinct,
    lemma_weight_push, lemma_weight_update, mass, normal, weight,
};

verus! {

/// The operation type under which join state is kept.
pub const JOIN_TYPE_BIT: u8 = 3;

/// The storage id of one shard of an operator: the operator in the high bits, the column in the
/// next fourteen, the operation type in the lowest two.
pub open spec fn storage_id(operator_id: int, column_index: int, op_type: int) -> int {
    operator_id * 65536 + column_index * 4 + op_type
}

/// Whether the storage ids of an operator fit in 64 bits.
pub open spec fn operator_id_fits(operator_id: int) -> bool {
    -0x8000_0000_0000 <= operator_id < 0x8000_0000_0000
}

pub fn generate_storage_id(operator_id: i64, column_index: usize, op_type: u8) -> (r: i64)
    requires
        operator_id_fits(operator_id as int),
        column_index < 16384,
        op_type <= 3,
    ensures
        r == storage_id(operator_id as int, column_index as int, op_type as int),
{
    operator_id * 65536 + (column_index as i64) * 4 + (op_type as i64)
}

/// Different shards have different storage ids.
pub proof fn law_storage_ids_are_distinct(
    operator_a: int,
    column_a: int,
    type_a: int,
    operator_b: int,
    column_b: int,
    type_b: int,
)
    requires
        0 <= column_a < 16384,
        0 <= column_b < 16384,
        0 <= type_a <= 3,
        0 <= type_b <= 3,
        storage_id(operator_a, column_a, type_a) == storage_id(operator_b, column_b, type_b),
    ensures
        operator_a == operator_b,
        column_a == column_b,
        type_a == type_b,
{
}

/// One entry of the state table.
#[derive(Debug, PartialEq, Eq)]
pub struct StateEntry {
    pub storage_id: i64,
    pub key: Vec<Value>,
    pub row: Option<HashableRow>,
    pub weight: isize,
}

/// Where an entry is kept.
#[verifier::ext_equal]
pub struct Address {
    pub storage_id: i64,
    pub key: Seq<Datum>,
    pub row: Option<RowView>,
}

pub open spec fn row_view(row: Option<HashableRow>) -> Option<RowView> {
    match row {
        Some(r) => Some(r@),
        None => None,
    }
}

impl StateEntry {
    pub open spec fn address(&self) -> Address {
        Address {
            storage_id: self.storage_id,
            key: data(self.key@),
            row: row_view(self.row),
        }
    }
}

/// The state of all operators of a circuit.
#[derive(Debug, PartialEq, Eq)]
pub struct StateTable {
    pub entries: Vec<StateEntry>,
}

impl View for StateTable {
    type V = Seq<(Address, int)>;

    open spec fn view(&self) -> Seq<(Address, int)> {
        self.entries@.map_values(|e: StateEntry| (e.address(), e.weight as int))
    }
}

/// The rows kept under a storage id and a key, with their weights.
pub open spec fn rows_at(
    entries: Seq<(Address, int)>,
    storage_id: i64,
    key: Seq<Datum>,
) -> Seq<(RowView, int)>
    decreases entries.len(),
{
    if entries.len() == 0 {
        Seq::empty()
    } else {
        let front = rows_at(entries.drop_last(), storage_id, key);
        let (a, w) = entries.last();
        if a.storage_id == storage_id && a.key == key && a.row is Some {
            front.push((a.row->Some_0, w))
        } else {
            front
        }
    }
}

/// Where the weights say that one row alone is kept under a key, it is what a scan visits.
pub proof fn lemma_one_row_at(
    entries: Seq<(Address, int)>,
    storage_id: i64,
    key: Seq<Datum>,
    row: RowView,
    w: int,
)
    requires
        normal(entries),
        w != 0,
        forall|r: RowView| #[trigger]
            weight(entries, Address { storage_id, key, row: Some(r) }) == (if r == row {
                w
            } else {
                0
            }),
    ensures
        rows_at(entries, storage_id, key) == seq![(row, w)],
    decreases entries.len(),
{
    assert(weight(entries, Address { storage_id, key, row: Some(row) }) == w);
    if entries.len() > 0 {
        let front = entries.drop_last();
        let (a, d) = entries.last();
        let at = entries.len() - 1;
        assert(entries[at] == (a, d));
        assert forall|i: int| 0 <= i < front.len() implies front[i] == entries[i] by {}
        assert(normal(front)) by {
            assert forall|i: int, j: int|
                0 <= i < front.len() && 0 <= j < front.len() && i != j implies (
            #[trigger] front[i]).0 != (#[trigger] front[j]).0 by {
                assert(front[i] == entries[i] && front[j] == entries[j]);
            }
            assert forall|i: int| 0 <= i < front.len() implies (#[trigger] front[i]).1 != 0 by {
                assert(front[i] == entries[i]);
            }
        }
        if a.storage_id == storage_id && a.key == key && a.row is Some {
            let r = a.row->Some_0;
            lemma_weight_distinct(entries, at);
            assert(a == Address { storage_id, key, row: Some(r) });
            assert(weight(entries, Address { storage_id, key, row: Some(r) }) == d);
            assert(r == row && d == w);
            assert forall|i: int| 0 <= i < front.len() implies !((
            #[trigger] front[i]).0.storage_id == storage_id && front[i].0.key == key
                && front[i].0.row is Some) by {
                let b = front[i].0;
                assert(entries[i].0 == b);
                if b.storage_id == storage_id && b.key == key && b.row is Some {
                    lemma_weight_distinct(entries, i);
                    assert(b == Address { storage_id, key, row: Some(b.row->Some_0) });
                    assert(weight(entries, Address { storage_id, key, row: b.row }) == front[i].1);
                    assert(entries[i].1 != 0);
                    assert(b.row->Some_0 == row);
                    assert(entries[i].0 == entries[at].0);
                }
            }
            lemma_no_row_at(front, storage_id, key);
            assert(rows_at(entries, storage_id, key) =~= seq![(row, w)]);
        } else {
            assert forall|r: RowView| #[trigger]
                weight(front, Address { storage_id, key, row: Some(r) }) == (if r == row {
                    w
                } else {
                    0
                }) by {
                assert(weight(entries, Address { storage_id, key, row: Some(r) }) == (if r
                    == row {
                    w
                } else {
                    0
                }));
            }
            lemma_one_row_at(front, storage_id, key, row, w);
        }
    }
}

/// Where no row is kept under a key, a scan visits none.
proof fn lemma_no_row_at(
    front: Seq<(Address, int)>,
    storage_id: i64,
    key: Seq<Datum>,
)
    requires
        forall|i: int|
            0 <= i < front.len() ==> !((#[trigger] front[i]).0.storage_id == storage_id
                && front[i].0.key == key && front[i].0.row is Some),
    ensures
        rows_at(front, storage_id, key) == Seq::<(RowView, int)>::empty(),
    decreases front.len(),
{
    if front.len() > 0 {
        assert(!(front[front.len() - 1].0.storage_id == storage_id && front[front.len()
            - 1].0.key == key && front[front.len() - 1].0.row is Some));
        let rest = front.drop_last();
        assert forall|i: int| 0 <= i < rest.len() implies !((
        #[trigger] rest[i]).0.storage_id == storage_id && rest[i].0.key == key
            && rest[i].0.row is Some) by {
            assert(rest[i] == front[i]);
        }
        lemma_no_row_at(rest, storage_id, key);
    }
}

/// A row found by a scan, with its weight and the position after it.
#[derive(Debug, PartialEq, Eq)]
pub struct ScannedRow {
    pub row: HashableRow,
    pub weight: isize,
    pub next: usize,
}

impl StateTable {
    /// Every address has at most one entry, and no entry has weight zero.
    pub open spec fn wf(&self) -> bool {
        normal(self@)
    }

    /// The weight kept at an address, zero where there is no entry.
    pub open spec fn at(&self, storage_id: i64, key: Seq<Datum>, row: Option<RowView>) -> int {
        weight(self@, Address { storage_id, key, row })
    }

    /// A table without entries.
    pub fn new() -> (r: Self)
        ensures
            r.wf(),
            r@.len() == 0,
    {
        StateTable { entries: Vec::new() }
    }

    fn find(&self, storage_id: i64, key: &Vec<Value>, row: &Option<HashableRow>) -> (r: Option<
        usize,
    >)
        ensures
            match r {
                Some(i) => i < self@.len() && self@[i as int].0 == (Address {
                    storage_id,
                    key: data(key@),
                    row: row_view(*row),
                }),
                None => forall|j: int|
                    0 <= j < self@.len() ==> (#[trigger] self@[j]).0 != (Address {
                        storage_id,
                        key: data(key@),
                        row: row_view(*row),
                    }),
            },
    {
        let mut i: usize = 0;
        while i < self.entries.len()
            invariant
                i <= self.entries.len(),
                forall|j: int|
                    0 <= j < i ==> (#[trigger] self@[j]).0 != (Address {
                        storage_id,
                        key: data(key@),
                        row: row_view(*row),
                    }),
            decreases self.entries.len() - i,
        {
            let e = &self.entries[i];
            let same_row = match (&e.row, row) {
                (Some(a), Some(b)) => a.same(b),
                (None, None) => true,
                _ => false,
            };
            if e.storage_id == storage_id && same_row && same_values(&e.key, key) {
                return Some(i);
            }
            i += 1;
        }
        None
    }

    /// The weight kept at an address, zero where there is no entry.
    pub fn read_weight(&self, storage_id: i64, key: &Vec<Value>, row: &Option<HashableRow>) -> (r:
        isize)
        requires
            self.wf(),
        ensures
            r == self.at(storage_id, data(key@), row_view(*row)),
    {
        match self.find(storage_id, key, row) {
            Some(i) => {
                proof {
                    lemma_weight_distinct(self@, i as int);
                }
                self.entries[i].weight
            },
            None => {
                proof {
                    lemma_weight_absent(
                        self@,
                        Address { storage_id, key: data(key@), row: row_view(*row) },
                    );
                }
                0
            },
        }
    }

    /// The first row under a storage id and a key that stands at or after position `from`.
    ///
    /// Scanning from zero, and then from each position handed back, visits every row of
    /// `rows_at` once and in order.
    pub fn next_row(&self, storage_id: i64, key: &Vec<Value>, from: usize) -> (r: Option<
        ScannedRow,
    >)
        requires
            from <= self@.len(),
        ensures
            match r {
                Some(s) => {
                    &&& from < s.next <= self@.len()
                    &&& rows_at(self@.take(s.next as int), storage_id, data(key@)) == rows_at(
                        self@.take(from as int),
                        storage_id,
                        data(key@),
                    ).push((s.row@, s.weight as int))
                    &&& self@.contains(
                        (
                            Address { storage_id, key: data(key@), row: Some(s.row@) },
                            s.weight as int,
                        ),
                    )
                },
                None => rows_at(self@, storage_id, data(key@)) == rows_at(
                    self@.take(from as int),
                    storage_id,
                    data(key@),
                ),
            },
    {
        let ghost k = data(key@);
        let mut i: usize = from;
        while i < self.entries.len()
            invariant
                from <= i <= self.entries.len(),
                k == data(key@),
                rows_at(self@.take(i as int), storage_id, k) == rows_at(
                    self@.take(from as int),
                    storage_id,
                    k,
                ),
            decreases self.entries.len() - i,
        {
            let e = &self.entries[i];
            assert(self@.take(i + 1).drop_last() =~= self@.take(i as int));
            assert(self@.take(i + 1).last() == (e.address(), e.weight as int));
            if e.storage_id == storage_id && same_values(&e.key, key) {
                if let Some(row) = &e.row {
                    assert(self@[i as int] == (
                        Address { storage_id, key: k, row: Some(row@) },
                        e.weight as int,
                    ));
                    return Some(ScannedRow { row: row.clone(), weight: e.weight, next: i + 1 });
                }
            }
            i += 1;
        }
        assert(self@.take(i as int) =~= self@);
        None
    }

    /// Adds `d` to the weight kept at an address.
    pub fn write_row(
        &mut self,
        storage_id: i64,
        key: &Vec<Value>,
        row: &Option<HashableRow>,
        d: isize,
    )
        requires
            old(self).wf(),
            mass(old(self)@) + abs(d as int) <= isize::MAX,
        ensures
            final(self).wf(),
            mass(final(self)@) <= mass(old(self)@) + abs(d as int),
            forall|a: Address| #[trigger]
                weight(final(self)@, a) == weight(old(self)@, a) + (if a == (Address {
                    storage_id,
                    key: data(key@),
                    row: row_view(*row),
                }) {
                    d as int
                } else {
                    0
                }),
    {
        let ghost before = self@;
        let ghost at = Address { storage_id, key: data(key@), row: row_view(*row) };
        match self.find(storage_id, key, row) {
            Some(i) => {
                proof {
                    lemma_mass_update(before, i as int, d as int);
                }
                let total: isize = self.entries[i].weight + d;
                let ghost updated = before.update(i as int, (at, before[i as int].1 + d));
                proof {
                    assert(before[i as int].0 == at);
                }
                if total == 0 {
                    let _ = self.entries.remove(i);
                    proof {
                        assert(self@ =~= before.remove(i as int));
                        lemma_remove(before, i as int);
                        assert forall|a: Address| #[trigger]
                            weight(self@, a) == weight(before, a) + (if a == at {
                                d as int
                            } else {
                                0
                            }) by {
                            lemma_weight_remove(before, i as int, a);
                        }
                    }
                } else {
                    let e = &self.entries[i];
                    let row_copy = match row {
                        Some(r) => Some(r.clone()),
                        None => None,
                    };
                    let entry = StateEntry {
                        storage_id,
                        key: copy_values(key),
                        row: row_copy,
                        weight: total,
                    };
                    assert(entry.address() == at);
                    self.entries.set(i, entry);
                    proof {
                        assert(self@ =~= updated);
                        assert forall|a: Address| #[trigger]
                            weight(self@, a) == weight(before, a) + (if a == at {
                                d as int
                            } else {
                                0
                            }) by {
                            lemma_weight_update(before, i as int, d as int, a);
                        }
                        assert forall|x: int, y: int|
                            0 <= x < self@.len() && 0 <= y < self@.len() && x != y implies (
                        #[trigger] self@[x]).0 != (#[trigger] self@[y]).0 by {
                            assert(self@[x].0 == before[x].0 && self@[y].0 == before[y].0);
                        }
                        assert forall|x: int| 0 <= x < self@.len() implies (
                        #[trigger] self@[x]).1 != 0 by {
                            if x != i {
                                assert(self@[x] == before[x]);
                            }
                        }
                    }
                }
            },
            None => {
                proof {
                    lemma_weight_absent(before, at);
                }
                if d != 0 {
                    let row_copy = match row {
                        Some(r) => Some(r.clone()),
                        None => None,
                    };
                    let entry = StateEntry {
                        storage_id,
                        key: copy_values(key),
                        row: row_copy,
                        weight: d,
                    };
                    assert(entry.address() == at);
                    self.entries.push(entry);
                    proof {
                        assert(self@ =~= before.push((at, d as int)));
                        lemma_mass_push(before, (at, d as int));
                        assert forall|a: Address| #[trigger]
                            weight(self@, a) == weight(before, a) + (if a == at {
                                d as int
                            } else {
                                0
                            }) by {
                            lemma_weight_push(before, (at, d as int), a);
                        }
                        assert forall|x: int, y: int|
                            0 <= x < self@.len() && 0 <= y < self@.len() && x != y implies (
                        #[trigger] self@[x]).0 != (#[trigger] self@[y]).0 by {
                            if x < before.len() {
                                assert(self@[x] == before[x]);
                            }
                            if y < before.len() {
                                assert(self@[y] == before[y]);
                            }
                        }
                        assert forall|x: int| 0 <= x < self@.len() implies (
                        #[trigger] self@[x]).1 != 0 by {
                            if x < before.len() {
                                assert(self@[x] == before[x]);
                            }
                        }
                    }
                }
            },
        }
    }
}

/// Removing an entry keeps the rest in normal form.
proof fn lemma_remove<K>(changes: Seq<(K, int)>, i: int)
    requires
        normal(changes),
        0 <= i < changes.len(),
    ensures
        normal(changes.remove(i)),
        mass(changes.remove(i)) <= mass(changes),
    decreases changes.len(),
{
    let after = changes.remove(i);
    assert forall|x: int, y: int|
        0 <= x < after.len() && 0 <= y < after.len() && x != y implies (#[trigger] after[x]).0 != (
    #[trigger] after[y]).0 by {
        let ox = if x < i { x } else { x + 1 };
        let oy = if y < i { y } else { y + 1 };
        assert(after[x] == changes[ox] && after[y] == changes[oy]);
    }
    assert forall|x: int| 0 <= x < after.len() implies (#[trigger] after[x]).1 != 0 by {
        let ox = if x < i { x } else { x + 1 };
        assert(after[x] == changes[ox]);
    }
    lemma_mass_remove(changes, i);
}

proof fn lemma_mass_remove<K>(changes: Seq<(K, int)>, i: int)
    requires
        0 <= i < changes.len(),
    ensures
        mass(changes.remove(i)) == mass(changes) - abs(changes[i].1),
    decreases changes.len(),
{
    let after = changes.remove(i);
    if i == changes.len() - 1 {
        assert(after =~= changes.drop_last());
    } else {
        lemma_mass_remove(changes.drop_last(), i);
        assert(after.drop_last() =~= changes.drop_last().remove(i));
        assert(after.last() == changes.last());
    }
}

proof fn lemma_weight_remove<K>(changes: Seq<(K, int)>, i: int, row: K)
    requires
        0 <= i < changes.len(),
    ensures
        weight(changes.remove(i), row) == weight(changes, row) - (if changes[i].0 == row {
            changes[i].1
        } else {
            0
        }),
    decreases changes.len(),
{
    let after = changes.remove(i);
    if i == changes.len() - 1 {
        assert(after =~= changes.drop_last());
    } else {
        lemma_weight_remove(changes.drop_last(), i, row);
        assert(after.drop_last() =~= changes.drop_last().remove(i));
        assert(after.last() == changes.last());
    }
}

/// The rows under a storage id and a key are those that are kept at an address with both, with the
/// weights that they have there.
pub proof fn law_rows_are_found_under_their_key(
    entries: Seq<(Address, int)>,
    storage_id: i64,
    key: Seq<Datum>,
    row: RowView,
    w: int,
)
    ensures
        rows_at(entries, storage_id, key).contains((row, w)) <==> entries.contains(
            (Address { storage_id, key, row: Some(row) }, w),
        ),
    decreases entries.len(),
{
    let entry = (Address { storage_id, key, row: Some(row) }, w);
    let all = rows_at(entries, storage_id, key);
    if entries.len() > 0 {
        let less = entries.drop_last();
        let front = rows_at(less, storage_id, key);
        law_rows_are_found_under_their_key(less, storage_id, key, row, w);
        if front.contains((row, w)) {
            let i = choose|i: int| 0 <= i < front.len() && front[i] == (row, w);
            assert(all[i] == (row, w));
        }
        if less.contains(entry) {
            let i = choose|i: int| 0 <= i < less.len() && less[i] == entry;
            assert(entries[i] == entry);
        }
        if entries.contains(entry) {
            let i = choose|i: int| 0 <= i < entries.len() && entries[i] == entry;
            if i < less.len() {
                assert(less[i] == entry);
            } else {
                assert(all[front.len() as int] == (row, w));
            }
        }
        if all.contains((row, w)) {
            let i = choose|i: int| 0 <= i < all.len() && all[i] == (row, w);
            if i < front.len() {
                assert(front[i] == (row, w));
            } else {
                assert(entries[entries.len() - 1] == entry);
            }
        }
    } else {
        assert(!all.contains((row, w)));
        assert(!entries.contains(entry));
    }
}

} // verus!
