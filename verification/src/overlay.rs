//! Changes by row id.

use vstd::prelude::*;

use crate::zset::{added_up, equivalent, mass, normal, Change, Delta};

verus! {

/// Where to look for a row id.
#[derive(Debug, PartialEq, Eq, Clone, Copy, Structural)]
pub enum SeekOp {
    /// The first that is no less, or only the very one.
    GE { eq_only: bool },
    /// The first that is greater.
    GT,
    /// The last that is no greater, or only the very one.
    LE { eq_only: bool },
    /// The last that is less.
    LT,
}

impl SeekOp {
    pub open spec fn is_forward(self) -> bool {
        self is GE || self is GT
    }

    pub fn forward(&self) -> (r: bool)
        ensures
            r == self.is_forward(),
    {
        match self {
            SeekOp::GE { .. } => true,
            SeekOp::GT => true,
            SeekOp::LE { .. } => false,
            SeekOp::LT => false,
        }
    }

    /// Whether a row id may be found when a target is looked for.
    pub open spec fn admits(self, rowid: i64, target: i64) -> bool {
        match self {
            SeekOp::GE { eq_only: false } => rowid >= target,
            SeekOp::GT => rowid > target,
            SeekOp::LE { eq_only: false } => rowid <= target,
            SeekOp::LT => rowid < target,
            _ => rowid == target,
        }
    }

    fn does_admit(&self, rowid: i64, target: i64) -> (r: bool)
        ensures
            r == self.admits(rowid, target),
    {
        match self {
            SeekOp::GE { eq_only: false } => rowid >= target,
            SeekOp::GT => rowid > target,
            SeekOp::LE { eq_only: false } => rowid <= target,
            SeekOp::LT => rowid < target,
            _ => rowid == target,
        }
    }

    /// Whether a row id is found before another.
    pub open spec fn nearer(self, a: i64, b: i64) -> bool {
        if self.is_forward() {
            a < b
        } else {
            a > b
        }
    }

    fn is_nearer(&self, a: i64, b: i64) -> (r: bool)
        ensures
            r == self.nearer(a, b),
    {
        if self.forward() {
            a < b
        } else {
            a > b
        }
    }
}

/// The row id that is found first among changes, where one is found.
pub open spec fn nearest(changes: Seq<Change>, target: i64, op: SeekOp) -> Option<i64>
    decreases changes.len(),
{
    if changes.len() == 0 {
        None
    } else {
        let id = changes.last().0.rowid;
        let before = nearest(changes.drop_last(), target, op);
        if !op.admits(id, target) {
            before
        } else {
            match before {
                None => Some(id),
                Some(b) => if op.nearer(id, b) {
                    Some(id)
                } else {
                    before
                },
            }
        }
    }
}

/// What is found first is among the changes, may be found, and nothing else that may be found
/// comes before it.
pub proof fn lemma_nearest(changes: Seq<Change>, target: i64, op: SeekOp)
    ensures
        match nearest(changes, target, op) {
            Some(id) => {
                &&& op.admits(id, target)
                &&& exists|i: int| 0 <= i < changes.len() && (#[trigger] changes[i]).0.rowid == id
                &&& forall|i: int|
                    0 <= i < changes.len() && op.admits((#[trigger] changes[i]).0.rowid, target)
                        ==> !op.nearer(changes[i].0.rowid, id)
            },
            None => forall|i: int|
                0 <= i < changes.len() ==> !op.admits((#[trigger] changes[i]).0.rowid, target),
        },
    decreases changes.len(),
{
    if changes.len() > 0 {
        let front = changes.drop_last();
        lemma_nearest(front, target, op);
        assert forall|i: int| 0 <= i < front.len() implies front[i] == changes[i] by {}
        match nearest(changes, target, op) {
            Some(id) => {
                if nearest(front, target, op) == Some(id) {
                    let k = choose|k: int| 0 <= k < front.len() && (#[trigger] front[k]).0.rowid
                        == id;
                    assert(changes[k].0.rowid == id);
                } else {
                    assert(changes[changes.len() - 1].0.rowid == id);
                }
                assert forall|i: int|
                    0 <= i < changes.len() && op.admits(
                        (#[trigger] changes[i]).0.rowid,
                        target,
                    ) implies !op.nearer(changes[i].0.rowid, id) by {
                    if i < front.len() {
                        assert(front[i] == changes[i]);
                    }
                }
            },
            None => {
                assert forall|i: int| 0 <= i < changes.len() implies !op.admits(
                    (#[trigger] changes[i]).0.rowid,
                    target,
                ) by {
                    if i < front.len() {
                        assert(front[i] == changes[i]);
                    }
                }
            },
        }
    }
}

pub open spec fn with_id(id: i64) -> spec_fn(Change) -> bool {
    |c: Change| c.0.rowid == id
}

/// The changes to the row id that is found first.
pub open spec fn sought(changes: Seq<Change>, target: i64, op: SeekOp) -> Seq<Change> {
    match nearest(changes, target, op) {
        Some(id) => changes.filter(with_id(id)),
        None => Seq::empty(),
    }
}

/// Changes added up, to be looked up by row id.
#[derive(Debug)]
pub struct RowKeyZSet {
    pub delta: Delta,
}

impl View for RowKeyZSet {
    type V = Seq<Change>;

    open spec fn view(&self) -> Seq<Change> {
        self.delta@
    }
}

impl RowKeyZSet {
    /// No changes.
    pub fn new() -> (r: Self)
        ensures
            r@.len() == 0,
            normal(r@),
    {
        RowKeyZSet { delta: Delta::new() }
    }

    /// Adds changes up.
    pub fn from_delta(delta: &Delta) -> (r: Self)
        requires
            mass(delta@) <= isize::MAX,
        ensures
            r@ == added_up(delta@),
            normal(r@),
            equivalent(r@, delta@),
            mass(r@) <= mass(delta@),
    {
        let mut sum = delta.clone();
        sum.consolidate();
        RowKeyZSet { delta: sum }
    }

    pub fn is_empty(&self) -> (r: bool)
        ensures
            r == (self@.len() == 0),
    {
        self.delta.is_empty()
    }

    /// The changes to the row id that is found first.
    pub fn seek(&self, target: i64, op: SeekOp) -> (r: Delta)
        ensures
            r@ == sought(self@, target, op),
    {
        let ghost all = self@;
        let mut best: Option<i64> = None;
        let mut i: usize = 0;
        assert(all.take(0) =~= Seq::<Change>::empty());
        while i < self.delta.changes.len()
            invariant
                i <= self.delta.changes.len(),
                all == self@,
                best == nearest(all.take(i as int), target, op),
            decreases self.delta.changes.len() - i,
        {
            let id: i64 = self.delta.changes[i].0.rowid;
            proof {
                assert(all.take(i + 1).drop_last() =~= all.take(i as int));
                assert(all[i as int].0.rowid == id);
            }
            if op.does_admit(id, target) {
                best =
                match best {
                    None => Some(id),
                    Some(b) => if op.is_nearer(id, b) {
                        Some(id)
                    } else {
                        Some(b)
                    },
                };
            }
            i += 1;
        }
        assert(all.take(i as int) =~= all);
        let mut out = Delta::new();
        let id: i64 = match best {
            None => return out,
            Some(id) => id,
        };
        let mut k: usize = 0;
        proof {
            reveal(Seq::filter);
            assert(all.take(0).filter(with_id(id)) =~= Seq::<Change>::empty());
        }
        while k < self.delta.changes.len()
            invariant
                k <= self.delta.changes.len(),
                all == self@,
                out@ == all.take(k as int).filter(with_id(id)),
            decreases self.delta.changes.len() - k,
        {
            proof {
                reveal(Seq::filter);
                assert(all.take(k + 1).drop_last() =~= all.take(k as int));
                assert(all.take(k + 1).last() == all[k as int]);
                assert(all[k as int] == (
                    self.delta.changes@[k as int].0@,
                    self.delta.changes@[k as int].1 as int,
                ));
            }
            if self.delta.changes[k].0.rowid == id {
                out.push(self.delta.changes[k].0.clone(), self.delta.changes[k].1);
            }
            k += 1;
        }
        assert(all.take(k as int) =~= all);
        out
    }
}

/// A search goes by its operator: forward to the least row id that is no less than the target or is
/// greater, backward to the greatest that is no greater or is less, or to the very target alone.
pub proof fn law_searches_go_by_their_operator(op: SeekOp, a: i64, b: i64, target: i64)
    ensures
        match op {
            SeekOp::GE { eq_only } => {
                &&& op.admits(a, target) <==> (if eq_only {
                    a == target
                } else {
                    a >= target
                })
                &&& op.nearer(a, b) <==> a < b
            },
            SeekOp::GT => {
                &&& op.admits(a, target) <==> a > target
                &&& op.nearer(a, b) <==> a < b
            },
            SeekOp::LE { eq_only } => {
                &&& op.admits(a, target) <==> (if eq_only {
                    a == target
                } else {
                    a <= target
                })
                &&& op.nearer(a, b) <==> a > b
            },
            SeekOp::LT => {
                &&& op.admits(a, target) <==> a < target
                &&& op.nearer(a, b) <==> a > b
            },
        },
{
}

} // verus!
