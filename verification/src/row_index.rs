//! Finding rows in a growing list.
//!
//! A list of rows is found by hash: for each hash the map holds the last row that has it, and each
//! row leads to the one before it with the same hash.

use vstd::prelude::*;

use crate::hash::{digest, fingerprint};
use crate::names::IdIndex;
use crate::value::{HashableRow, RowView};

verus! {

/// The hash of a row.
pub open spec fn row_hash(row: RowView) -> i64 {
    fingerprint(row.values) ^ row.rowid
}

fn hash_row(row: &HashableRow) -> (r: i64)
    ensures
        r == row_hash(row@),
{
    digest(&row.values) ^ row.rowid
}

/// What a list of rows holds, without the weights.
pub open spec fn listed(rows: Seq<(HashableRow, isize)>) -> Seq<RowView> {
    rows.map_values(|c: (HashableRow, isize)| c.0@)
}

/// Where the rows of a list are, by their hashes.
#[derive(Debug)]
pub struct RowIndex {
    last: IdIndex,
    earlier: Vec<Option<usize>>,
}

impl RowIndex {
    /// Whether `at` is the last row below `end` that has a hash.
    pub open spec fn is_last(rows: Seq<RowView>, end: int, hash: i64, at: Option<usize>) -> bool {
        match at {
            Some(k) => {
                &&& k < end
                &&& row_hash(rows[k as int]) == hash
                &&& forall|j: int| k < j < end ==> row_hash(#[trigger] rows[j]) != hash
            },
            None => forall|j: int| 0 <= j < end ==> row_hash(#[trigger] rows[j]) != hash,
        }
    }

    pub closed spec fn last_of(&self, hash: i64) -> Option<usize> {
        if self.last@.dom().contains(hash) {
            Some(self.last@[hash])
        } else {
            None
        }
    }

    /// Whether the index knows the rows of a list.
    pub closed spec fn covers(&self, rows: Seq<RowView>) -> bool {
        &&& self.earlier@.len() == rows.len()
        &&& forall|hash: i64|
            Self::is_last(rows, rows.len() as int, hash, #[trigger] self.last_of(hash))
        &&& forall|i: int|
            0 <= i < rows.len() ==> Self::is_last(
                rows,
                i,
                row_hash(rows[i]),
                #[trigger] self.earlier@[i],
            )
    }

    pub fn new() -> (r: Self)
        ensures
            r.covers(Seq::empty()),
    {
        RowIndex { last: IdIndex::new(), earlier: Vec::new() }
    }

    /// The position of a row in a list, if it is there.
    pub fn find(&self, rows: &Vec<(HashableRow, isize)>, row: &HashableRow) -> (r: Option<usize>)
        requires
            self.covers(listed(rows@)),
        ensures
            match r {
                Some(i) => i < rows@.len() && rows@[i as int].0@ == row@,
                None => forall|j: int| 0 <= j < rows@.len() ==> (#[trigger] rows@[j]).0@ != row@,
            },
    {
        let ghost all = listed(rows@);
        let hash: i64 = hash_row(row);
        let mut at: Option<usize> = self.last.get(hash);
        let ghost mut end: int = all.len() as int;
        assert(at == self.last_of(hash));
        loop
            invariant
                all == listed(rows@),
                self.covers(all),
                hash == row_hash(row@),
                0 <= end <= all.len(),
                Self::is_last(all, end, hash, at),
                forall|j: int| end <= j < all.len() ==> #[trigger] all[j] != row@,
            ensures
                forall|j: int| 0 <= j < all.len() ==> #[trigger] all[j] != row@,
            decreases end,
        {
            let k: usize = match at {
                Some(k) => k,
                None => break,
            };
            assert(all[k as int] == rows@[k as int].0@);
            if rows[k].0.same(row) {
                return Some(k);
            }
            at = self.earlier[k];
            proof {
                end = k as int;
            }
        }
        proof {
            assert forall|j: int| 0 <= j < rows@.len() implies (#[trigger] rows@[j]).0@ != row@ by {
                assert(all[j] == rows@[j].0@);
            }
        }
        None
    }

    /// Takes note of a row that is put at the end of the list.
    pub fn note(&mut self, row: &HashableRow)
        ensures
            forall|rows: Seq<RowView>| #[trigger]
                old(self).covers(rows) ==> final(self).covers(rows.push(row@)),
    {
        let ghost before = *self;
        let at: usize = self.earlier.len();
        let hash: i64 = hash_row(row);
        let same: Option<usize> = self.last.get(hash);
        self.earlier.push(same);
        self.last.insert(hash, at);
        proof {
            assert(same == before.last_of(hash));
            assert forall|rows: Seq<RowView>| #[trigger] before.covers(rows) implies self.covers(
                rows.push(row@),
            ) by {
                let longer = rows.push(row@);
                assert forall|h: i64|
                    Self::is_last(longer, longer.len() as int, h, #[trigger] self.last_of(h)) by {
                    assert(Self::is_last(rows, rows.len() as int, h, before.last_of(h)));
                    if h != hash {
                        assert(self.last_of(h) == before.last_of(h));
                    } else {
                        assert(self.last_of(h) == Some(at));
                    }
                }
                assert forall|i: int| 0 <= i < longer.len() implies Self::is_last(
                    longer,
                    i,
                    row_hash(longer[i]),
                    #[trigger] self.earlier@[i],
                ) by {
                    if i < rows.len() {
                        assert(self.earlier@[i] == before.earlier@[i]);
                        assert(Self::is_last(rows, i, row_hash(rows[i]), before.earlier@[i]));
                    } else {
                        assert(Self::is_last(rows, rows.len() as int, hash, before.last_of(hash)));
                    }
                }
            }
        }
    }
}

} // verus!
