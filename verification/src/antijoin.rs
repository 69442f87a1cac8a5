//! The antijoin operator: which left rows have no match on the right.
//!
//! The operator keeps two shards of state. `L_INDEX` holds the left rows filed under their join
//! key, `R_COUNT` holds for every join key how many right rows carry it. A left row is matched
//! while the count of its key is not zero. In `EmitMode::NullPad` the operator shows an unmatched
//! left row padded with NULLs, the half of a LEFT JOIN that an inner join does not produce; in
//! `EmitMode::Indicator` it shows every left row with a trailing 1 where it is matched and 0
//! where it is not, which is how an EXISTS predicate reads it.
//!
//! For a change of the left rows `dL` and of the right rows, with counts going from `c_pre` to
//! `c_post`, the output is
//!
//! ```text
//!     the rows shown for L_pre under c_post, less those shown for L_pre under c_pre
//!   + the rows shown for dL under c_post
//! ```
//!
//! The first line needs only the keys whose count crosses zero. NULL join keys match nothing:
//! right rows with such a key are not counted.

use vstd::prelude::*;

use crate::hash::{derive_row, derived_row, digest, fingerprint};
use crate::state::{
    generate_storage_id, operator_id_fits, row_view, rows_at, storage_id, Address, ScannedRow,
    StateTable, JOIN_TYPE_BIT,
};
use crate::value::{
    any_null, copy_values, data, has_null, int_datum, Datum, HashableRow, NumericView, RowView,
    Value,
};
use crate::zset::{
    abs, added_up, distinct, equivalent, law_sums_depend_on_weights_alone, lemma_added_up,
    lemma_mass_nonneg, lemma_mass_prefix,
    lemma_mass_push, lemma_mass_update, lemma_sum_where_concat, lemma_sum_where_push,
    lemma_sums_of_positive_weights,
    lemma_weight_absent, lemma_weight_concat, lemma_weight_distinct, lemma_weight_push,
    lemma_weight_within_mass, mass, normal, rows_of, sum_where, totals, weight, Change, Delta, DeltaPair,
};

verus! {

/// What the operator shows for a left row.
#[derive(Debug, PartialEq, Eq, Clone, Copy, Structural)]
pub enum EmitMode {
    /// Unmatched rows, padded with this many NULLs.
    NullPad { right_column_count: usize },
    /// Every row, with a trailing 1 or 0.
    Indicator,
}

#[derive(Debug)]
pub struct AntijoinOperator {
    pub operator_id: i64,
    pub left_key_indices: Vec<usize>,
    pub right_key_indices: Vec<usize>,
    pub mode: EmitMode,
}

/// One join key whose right count changes.
#[derive(Debug)]
pub struct AffectedKey {
    pub join_key: HashableRow,
    pub delta_count: isize,
    pub c_pre: Option<isize>,
}

/// Where the pass over the affected keys stands at one key.
#[derive(Debug)]
pub enum RKeyScan {
    Idle,
    ReadingRCount,
    /// The count crosses zero: left rows under the key are visited from `next` on.
    ScanningL { indicator_delta: isize, next: usize },
}

/// Where the pass over the left changes stands at one change.
#[derive(Debug)]
pub enum LRowResolve {
    Idle,
    ReadingRCount,
}

/// Where an evaluation stands.
#[allow(inconsistent_fields)]
#[derive(Debug)]
pub enum AntijoinEvalState {
    /// Over the keys with a changed count.
    EmitRTransitions {
        deltas: DeltaPair,
        output: Delta,
        affected_keys: Vec<AffectedKey>,
        key_idx: usize,
        sub: RKeyScan,
    },
    /// Over the left changes.
    ProcessLDelta {
        deltas: DeltaPair,
        output: Delta,
        right_count_deltas: Delta,
        l_idx: usize,
        sub: LRowResolve,
    },
    Done { output: Delta },
}

/// What an evaluation has to know of the state before it can go on.
#[derive(Debug, PartialEq, Eq)]
pub enum StateRequest {
    Nothing,
    /// How many right rows carry a key.
    Count { key: Vec<Value> },
    /// The first left row under a key that is kept at or after a position.
    LeftRow { key: Vec<Value>, from: usize },
}

#[verifier::ext_equal]
pub enum RequestView {
    Nothing,
    Count { key: Seq<Datum> },
    LeftRow { key: Seq<Datum>, from: int },
}

impl View for StateRequest {
    type V = RequestView;

    open spec fn view(&self) -> RequestView {
        match self {
            StateRequest::Nothing => RequestView::Nothing,
            StateRequest::Count { key } => RequestView::Count { key: data(key@) },
            StateRequest::LeftRow { key, from } => RequestView::LeftRow {
                key: data(key@),
                from: *from as int,
            },
        }
    }
}

/// What the state says.
#[derive(Debug)]
pub enum StateAnswer {
    Nothing,
    Count(isize),
    LeftRow(Option<ScannedRow>),
}

#[verifier::ext_equal]
pub enum AnswerView {
    Nothing,
    Count(int),
    /// The row, its weight, and the position after it.
    LeftRow(Option<(RowView, int, int)>),
}

impl View for StateAnswer {
    type V = AnswerView;

    open spec fn view(&self) -> AnswerView {
        match self {
            StateAnswer::Nothing => AnswerView::Nothing,
            StateAnswer::Count(c) => AnswerView::Count(*c as int),
            StateAnswer::LeftRow(None) => AnswerView::LeftRow(None),
            StateAnswer::LeftRow(Some(s)) => AnswerView::LeftRow(
                Some((s.row@, s.weight as int, s.next as int)),
            ),
        }
    }
}

/// Where the pass over the affected keys stands at one key.
#[verifier::ext_equal]
pub enum ScanView {
    Idle,
    Reading,
    /// The left rows are visited from a position on. `was` tells whether they were matched; now it
    /// is the other way round.
    Rows { was: bool, from: int },
}

/// Where an evaluation stands.
#[allow(inconsistent_fields)]
#[verifier::ext_equal]
pub enum EvalView {
    Right {
        left: Seq<Change>,
        right: Seq<Change>,
        output: Seq<Change>,
        keys: Seq<Change>,
        /// The counts as they were before, as far as they have been read.
        seen: Seq<Option<int>>,
        at: int,
        scan: ScanView,
    },
    Left {
        left: Seq<Change>,
        right: Seq<Change>,
        output: Seq<Change>,
        keys: Seq<Change>,
        at: int,
        reading: bool,
    },
    Done { output: Seq<Change> },
}

/// The changes of the counts of some keys.
pub open spec fn affected(affected_keys: Seq<AffectedKey>) -> Seq<Change> {
    affected_keys.map_values(|a: AffectedKey| (a.join_key@, a.delta_count as int))
}

/// The counts of some keys as they were before, as far as they have been read.
pub open spec fn counts_seen(affected_keys: Seq<AffectedKey>) -> Seq<Option<int>> {
    affected_keys.map_values(
        |a: AffectedKey|
            match a.c_pre {
                Some(c) => Some(c as int),
                None => None,
            },
    )
}

impl View for AntijoinEvalState {
    type V = EvalView;

    open spec fn view(&self) -> EvalView {
        match self {
            AntijoinEvalState::EmitRTransitions { deltas, output, affected_keys, key_idx, sub } => {
                EvalView::Right {
                    left: deltas.left@,
                    right: deltas.right@,
                    output: output@,
                    keys: affected(affected_keys@),
                    seen: counts_seen(affected_keys@),
                    at: *key_idx as int,
                    scan: match sub {
                        RKeyScan::Idle => ScanView::Idle,
                        RKeyScan::ReadingRCount => ScanView::Reading,
                        RKeyScan::ScanningL { indicator_delta, next } => ScanView::Rows {
                            was: *indicator_delta == 1,
                            from: *next as int,
                        },
                    },
                }
            },
            AntijoinEvalState::ProcessLDelta { deltas, output, right_count_deltas, l_idx, sub } => {
                EvalView::Left {
                    left: deltas.left@,
                    right: deltas.right@,
                    output: output@,
                    keys: right_count_deltas@,
                    at: *l_idx as int,
                    reading: *sub is ReadingRCount,
                }
            },
            AntijoinEvalState::Done { output } => EvalView::Done { output: output@ },
        }
    }
}

impl AntijoinEvalState {
    pub open spec fn wf(&self) -> bool {
        match self {
            AntijoinEvalState::EmitRTransitions { affected_keys, key_idx, sub, .. } => {
                &&& *key_idx <= affected_keys@.len()
                &&& mass(affected(affected_keys@)) <= isize::MAX
                &&& sub matches RKeyScan::ScanningL { indicator_delta, .. } ==> *indicator_delta
                    == 1 || *indicator_delta == -1
            },
            AntijoinEvalState::ProcessLDelta { deltas, right_count_deltas, l_idx, .. } => {
                &&& *l_idx <= deltas.left@.len()
                &&& mass(right_count_deltas@) <= isize::MAX
            },
            AntijoinEvalState::Done { .. } => true,
        }
    }
}

/// One write to the state.
#[derive(Debug, PartialEq, Eq)]
pub struct StateWrite {
    pub storage_id: i64,
    pub key: Vec<Value>,
    pub row: Option<HashableRow>,
    /// What is added to the weight that is kept.
    pub weight: isize,
}

impl StateWrite {
    pub open spec fn address(&self) -> Address {
        Address { storage_id: self.storage_id, key: data(self.key@), row: row_view(self.row) }
    }
}

/// Some writes, as what they add to the weights at their addresses.
pub open spec fn writes_view(writes: Seq<StateWrite>) -> Seq<(Address, int)> {
    writes.map_values(|w: StateWrite| (w.address(), w.weight as int))
}

/// The key of a row: the values at `indices`, NULL where the row is too short.
pub open spec fn project(values: Seq<Datum>, indices: Seq<usize>) -> Seq<Datum> {
    Seq::new(
        indices.len(),
        |i: int|
            if indices[i] < values.len() {
                values[indices[i] as int]
            } else {
                Datum::Null
            },
    )
}

/// A join key as a row of its own.
pub open spec fn key_row(key: Seq<Datum>) -> RowView {
    RowView { rowid: 0, values: key }
}

/// Some keys with one more put in its place in the order of their digests, after those with the same
/// digest.
pub open spec fn placed(keys: Seq<Change>, c: Change) -> Seq<Change>
    decreases keys.len(),
{
    if keys.len() == 0 {
        seq![c]
    } else if fingerprint(keys.last().0.values) <= fingerprint(c.0.values) {
        keys.push(c)
    } else {
        placed(keys.drop_last(), c).push(keys.last())
    }
}

/// Some keys in the order of their digests.
pub open spec fn by_digest(keys: Seq<Change>) -> Seq<Change>
    decreases keys.len(),
{
    if keys.len() == 0 {
        Seq::empty()
    } else {
        placed(by_digest(keys.drop_last()), keys.last())
    }
}

proof fn lemma_placed(keys: Seq<Change>, c: Change) -> (p: int)
    ensures
        0 <= p <= keys.len(),
        placed(keys, c) == keys.insert(p, c),
        forall|k: RowView| #[trigger] weight(placed(keys, c), k) == weight(keys.push(c), k),
        mass(placed(keys, c)) == mass(keys) + abs(c.1),
    decreases keys.len(),
{
    lemma_mass_push(keys, c);
    if keys.len() == 0 {
        assert(seq![c] =~= keys.push(c));
        assert(seq![c] =~= keys.insert(0, c));
        0
    } else if fingerprint(keys.last().0.values) <= fingerprint(c.0.values) {
        assert(keys.push(c) =~= keys.insert(keys.len() as int, c));
        keys.len() as int
    } else {
        let front = keys.drop_last();
        let p = lemma_placed(front, c);
        let q = placed(front, c);
        assert(q.push(keys.last()) =~= keys.insert(p, c));
        lemma_mass_push(q, keys.last());
        assert forall|k: RowView| #[trigger] weight(placed(keys, c), k) == weight(
            keys.push(c),
            k,
        ) by {
            lemma_weight_push(q, keys.last(), k);
            lemma_weight_push(keys, c, k);
            lemma_weight_push(front, c, k);
            assert(weight(q, k) == weight(front.push(c), k));
        }
        p
    }
}

proof fn lemma_by_digest(keys: Seq<Change>)
    ensures
        equivalent(by_digest(keys), keys),
        mass(by_digest(keys)) == mass(keys),
        by_digest(keys).len() == keys.len(),
        forall|i: int|
            0 <= i < keys.len() ==> keys.contains(#[trigger] by_digest(keys)[i]),
        distinct(keys) ==> distinct(by_digest(keys)),
    decreases keys.len(),
{
    if keys.len() > 0 {
        let front = keys.drop_last();
        let c = keys.last();
        lemma_by_digest(front);
        let q = by_digest(front);
        let p = lemma_placed(q, c);
        let r = by_digest(keys);
        assert forall|k: RowView| #[trigger] weight(r, k) == weight(keys, k) by {
            lemma_weight_push(q, c, k);
            assert(weight(q, k) == weight(front, k));
            assert(weight(placed(q, c), k) == weight(q.push(c), k));
        }
        assert forall|i: int| 0 <= i < keys.len() implies keys.contains(#[trigger] r[i]) by {
            if i == p {
                assert(keys[keys.len() - 1] == r[i]);
            } else {
                let o = if i < p {
                    i
                } else {
                    i - 1
                };
                assert(r[i] == q[o]);
                let j = choose|j: int| 0 <= j < front.len() && front[j] == q[o];
                assert(keys[j] == r[i]);
            }
        }
        if distinct(keys) {
            assert(distinct(front)) by {
                assert forall|a: int, b: int|
                    0 <= a < front.len() && 0 <= b < front.len() && a != b implies (
                #[trigger] front[a]).0 != (#[trigger] front[b]).0 by {
                    assert(front[a] == keys[a] && front[b] == keys[b]);
                }
            }
            assert forall|o: int| 0 <= o < q.len() implies (#[trigger] q[o]).0 != c.0 by {
                let j = choose|j: int| 0 <= j < front.len() && front[j] == q[o];
                assert(keys[j] == q[o] && keys[keys.len() - 1] == c);
            }
            assert forall|a: int, b: int|
                0 <= a < r.len() && 0 <= b < r.len() && a != b implies (#[trigger] r[a]).0 != (
            #[trigger] r[b]).0 by {
                let oa = if a < p {
                    a
                } else {
                    a - 1
                };
                let ob = if b < p {
                    b
                } else {
                    b - 1
                };
                if a != p {
                    assert(r[a] == q[oa]);
                }
                if b != p {
                    assert(r[b] == q[ob]);
                }
            }
        }
    }
}

/// A commit: the changes on both sides, what was put out, and the state afterwards.
#[verifier::ext_equal]
pub struct Committed {
    pub left: Seq<Change>,
    pub right: Seq<Change>,
    pub out: Seq<Change>,
    pub after: Seq<(Address, int)>,
}

/// All left changes of some commits.
pub open spec fn all_left(history: Seq<Committed>) -> Seq<Change>
    decreases history.len(),
{
    if history.len() == 0 {
        Seq::empty()
    } else {
        all_left(history.drop_last()) + history.last().left
    }
}

/// All right changes of some commits.
pub open spec fn all_right(history: Seq<Committed>) -> Seq<Change>
    decreases history.len(),
{
    if history.len() == 0 {
        Seq::empty()
    } else {
        all_right(history.drop_last()) + history.last().right
    }
}

/// All that some commits put out.
pub open spec fn all_out(history: Seq<Committed>) -> Seq<Change>
    decreases history.len(),
{
    if history.len() == 0 {
        Seq::empty()
    } else {
        all_out(history.drop_last()) + history.last().out
    }
}

/// The state after some commits, beginning with an empty one.
pub open spec fn state_after(history: Seq<Committed>) -> Seq<(Address, int)> {
    if history.len() == 0 {
        Seq::empty()
    } else {
        history.last().after
    }
}

impl AntijoinOperator {
    pub open spec fn wf(&self) -> bool {
        operator_id_fits(self.operator_id as int)
    }

    pub open spec fn l_index(&self) -> i64 {
        storage_id(self.operator_id as int, 0, JOIN_TYPE_BIT as int) as i64
    }

    pub open spec fn r_count(&self) -> i64 {
        storage_id(self.operator_id as int, 1, JOIN_TYPE_BIT as int) as i64
    }

    pub open spec fn left_key(&self, row: RowView) -> Seq<Datum> {
        project(row.values, self.left_key_indices@)
    }

    pub open spec fn right_key(&self, row: RowView) -> Seq<Datum> {
        project(row.values, self.right_key_indices@)
    }

    /// The row shown for a left row, if one is.
    pub open spec fn shown_row(&self, row: RowView, matched: bool) -> Option<RowView> {
        match self.mode {
            EmitMode::NullPad { right_column_count } => if matched {
                None
            } else {
                Some(
                    derived_row(
                        row.values + Seq::new(right_column_count as nat, |i: int| Datum::Null),
                    ),
                )
            },
            EmitMode::Indicator => Some(
                derived_row(
                    row.values.push(
                        int_datum(
                            if matched {
                                1
                            } else {
                                0
                            },
                        ),
                    ),
                ),
            ),
        }
    }

    /// How often `p` is shown for a Z-set of left rows, given which keys are matched.
    pub open spec fn shown(
        &self,
        rows: Seq<Change>,
        matched: spec_fn(Seq<Datum>) -> bool,
        p: RowView,
    ) -> int {
        sum_where(rows, self.shows(matched, p))
    }

    /// The left rows for which `p` is shown.
    pub open spec fn shows(
        &self,
        matched: spec_fn(Seq<Datum>) -> bool,
        p: RowView,
    ) -> spec_fn(RowView) -> bool {
        |l: RowView| self.shown_row(l, matched(self.left_key(l))) == Some(p)
    }

    /// The right changes as changes of the counts of their keys.
    pub open spec fn key_changes(&self, right: Seq<Change>) -> Seq<Change>
        decreases right.len(),
    {
        if right.len() == 0 {
            Seq::empty()
        } else {
            let front = self.key_changes(right.drop_last());
            let (row, w) = right.last();
            if has_null(self.right_key(row)) {
                front
            } else {
                front.push((key_row(self.right_key(row)), w))
            }
        }
    }

    /// The left rows that the state holds.
    pub open spec fn left_rows(&self, entries: Seq<(Address, int)>) -> Seq<Change>
        decreases entries.len(),
    {
        if entries.len() == 0 {
            Seq::empty()
        } else {
            let front = self.left_rows(entries.drop_last());
            let (a, w) = entries.last();
            if a.storage_id == self.l_index() && a.row is Some {
                front.push((a.row->Some_0, w))
            } else {
                front
            }
        }
    }

    /// Every left row in the state is filed under its own key.
    pub open spec fn filed(&self, entries: Seq<(Address, int)>) -> bool {
        forall|i: int|
            0 <= i < entries.len() && (#[trigger] entries[i]).0.storage_id == self.l_index()
                && entries[i].0.row is Some ==> entries[i].0.key == self.left_key(
                entries[i].0.row->Some_0,
            )
    }

    /// How many right rows carry a key.
    pub open spec fn count(&self, entries: Seq<(Address, int)>, key: Seq<Datum>) -> int {
        weight(entries, Address { storage_id: self.r_count(), key, row: None })
    }

    /// The keys with a match.
    pub open spec fn matched_pre(&self, entries: Seq<(Address, int)>) -> spec_fn(
        Seq<Datum>,
    ) -> bool {
        |key: Seq<Datum>| self.count(entries, key) != 0
    }

    /// The keys with a match once the counts have changed.
    pub open spec fn matched_post(
        &self,
        entries: Seq<(Address, int)>,
        right: Seq<Change>,
    ) -> spec_fn(Seq<Datum>) -> bool {
        |key: Seq<Datum>|
            self.count(entries, key) + weight(self.key_changes(right), key_row(key)) != 0
    }

    /// How often `p` is shown by the state as it stands.
    pub open spec fn integral(&self, entries: Seq<(Address, int)>, p: RowView) -> int {
        self.shown(self.left_rows(entries), self.matched_pre(entries), p)
    }

    /// The weight of `p` in the output for a change.
    pub open spec fn output_weight(
        &self,
        entries: Seq<(Address, int)>,
        left: Seq<Change>,
        right: Seq<Change>,
        p: RowView,
    ) -> int {
        self.shown(self.left_rows(entries), self.matched_post(entries, right), p) - self.shown(
            self.left_rows(entries),
            self.matched_pre(entries),
            p,
        ) + self.shown(left, self.matched_post(entries, right), p)
    }

    /// What a change adds to the weight kept at an address.
    pub open spec fn state_change(&self, left: Seq<Change>, right: Seq<Change>, a: Address) -> int {
        if a.storage_id == self.r_count() && a.row is None {
            weight(self.key_changes(right), key_row(a.key))
        } else if a.storage_id == self.l_index() && a.row is Some && a.key == self.left_key(
            a.row->Some_0,
        ) {
            weight(left, a.row->Some_0)
        } else {
            0
        }
    }

    /// Whether a commit takes a state to its next and puts out the change of what is shown.
    pub open spec fn committed(&self, before: Seq<(Address, int)>, c: Committed) -> bool {
        &&& normal(c.after)
        &&& forall|a: Address| #[trigger]
            weight(c.after, a) == weight(before, a) + self.state_change(c.left, c.right, a)
        &&& forall|p: RowView| #[trigger]
            weight(c.out, p) == self.output_weight(before, c.left, c.right, p)
    }

    /// Whether commits follow one another, beginning with an empty state.
    pub open spec fn is_history(&self, history: Seq<Committed>) -> bool
        decreases history.len(),
    {
        history.len() == 0 || (self.is_history(history.drop_last()) && self.committed(
            state_after(history.drop_last()),
            history.last(),
        ))
    }

    /// The keys that some right rows carry. A key that holds NULL is carried by none.
    pub open spec fn carried_by(&self, right: Seq<Change>) -> spec_fn(Seq<Datum>) -> bool {
        |key: Seq<Datum>|
            !has_null(key) && exists|r: RowView|
                #[trigger] weight(right, r) != 0 && self.right_key(r) == key
    }

    // The output as it is built up.

    /// What is put out for a left row with a weight.
    pub open spec fn emission(&self, row: RowView, w: int, matched: bool) -> Seq<Change> {
        if w == 0 {
            Seq::empty()
        } else {
            match self.shown_row(row, matched) {
                Some(p) => seq![(p, w)],
                None => Seq::empty(),
            }
        }
    }

    /// What an evaluation has to know next.
    pub open spec fn requested(&self, v: EvalView) -> RequestView {
        match v {
            EvalView::Right { keys, at, scan, .. } => if at >= keys.len() {
                RequestView::Nothing
            } else {
                match scan {
                    ScanView::Idle => RequestView::Nothing,
                    ScanView::Reading => RequestView::Count { key: keys[at].0.values },
                    ScanView::Rows { was: _, from } => RequestView::LeftRow {
                        key: keys[at].0.values,
                        from,
                    },
                }
            },
            EvalView::Left { left, at, reading, .. } => if at >= left.len() || !reading {
                RequestView::Nothing
            } else {
                RequestView::Count { key: self.left_key(left[at].0) }
            },
            EvalView::Done { .. } => RequestView::Nothing,
        }
    }

    /// One step of an evaluation, on what it asked for. Any other answer leaves it where it is.
    pub open spec fn stepped(&self, v: EvalView, answer: AnswerView) -> EvalView {
        match v {
            EvalView::Right { left, right, output, keys, seen, at, scan } => if at >= keys.len() {
                EvalView::Left { left, right, output, keys, at: 0, reading: false }
            } else {
                match (scan, answer) {
                    (ScanView::Idle, _) => EvalView::Right {
                        left,
                        right,
                        output,
                        keys,
                        seen,
                        at,
                        scan: ScanView::Reading,
                    },
                    (ScanView::Reading, AnswerView::Count(c)) => {
                        let seen = seen.update(at, Some(c));
                        let was = c != 0;
                        let now = c + keys[at].1 != 0;
                        if was == now {
                            EvalView::Right {
                                left,
                                right,
                                output,
                                keys,
                                seen,
                                at: at + 1,
                                scan: ScanView::Idle,
                            }
                        } else {
                            EvalView::Right {
                                left,
                                right,
                                output,
                                keys,
                                seen,
                                at,
                                scan: ScanView::Rows { was, from: 0 },
                            }
                        }
                    },
                    (ScanView::Rows { .. }, AnswerView::LeftRow(None)) => EvalView::Right {
                        left,
                        right,
                        output,
                        keys,
                        seen,
                        at: at + 1,
                        scan: ScanView::Idle,
                    },
                    (
                        ScanView::Rows { was, .. },
                        AnswerView::LeftRow(Some(found)),
                    ) => EvalView::Right {
                        left,
                        right,
                        output: output + self.emission(found.0, -found.1, was) + self.emission(
                            found.0,
                            found.1,
                            !was,
                        ),
                        keys,
                        seen,
                        at,
                        scan: ScanView::Rows { was, from: found.2 },
                    },
                    _ => v,
                }
            },
            EvalView::Left { left, right, output, keys, at, reading } => if at >= left.len() {
                EvalView::Done { output }
            } else if !reading {
                EvalView::Left { left, right, output, keys, at, reading: true }
            } else {
                match answer {
                    AnswerView::Count(c) => EvalView::Left {
                        left,
                        right,
                        output: output + self.emission(
                            left[at].0,
                            left[at].1,
                            c + weight(keys, key_row(self.left_key(left[at].0))) != 0,
                        ),
                        keys,
                        at: at + 1,
                        reading: false,
                    },
                    _ => v,
                }
            },
            EvalView::Done { .. } => v,
        }
    }

    /// Whether the counts and weights of an answer can be reckoned with.
    pub open spec fn answer_fits(&self, v: EvalView, answer: AnswerView) -> bool {
        match (v, answer) {
            (EvalView::Right { keys, at, .. }, AnswerView::Count(c)) => at < keys.len()
                ==> isize::MIN <= c + keys[at].1 <= isize::MAX,
            (EvalView::Right { .. }, AnswerView::LeftRow(Some(found))) => found.1 > isize::MIN,
            (EvalView::Left { left, keys, at, .. }, AnswerView::Count(c)) => at < left.len()
                ==> isize::MIN <= c + weight(keys, key_row(self.left_key(left[at].0)))
                <= isize::MAX,
            _ => true,
        }
    }

    /// Whether an answer is what a state says to a request.
    pub open spec fn answers(
        &self,
        entries: Seq<(Address, int)>,
        request: RequestView,
        answer: AnswerView,
    ) -> bool {
        match request {
            RequestView::Nothing => true,
            RequestView::Count { key } => answer == AnswerView::Count(self.count(entries, key)),
            RequestView::LeftRow { key, from } => {
                let before = rows_at(entries.take(from), self.l_index(), key);
                match answer {
                    AnswerView::LeftRow(None) => rows_at(entries, self.l_index(), key) == before,
                    AnswerView::LeftRow(Some(found)) => {
                        &&& from < found.2 <= entries.len()
                        &&& rows_at(entries.take(found.2), self.l_index(), key) == before.push(
                            (found.0, found.1),
                        )
                    },
                    _ => false,
                }
            },
        }
    }

    /// What flipping left rows puts out.
    pub open spec fn flips(&self, rows: Seq<Change>, was: bool, now: bool) -> Seq<Change>
        decreases rows.len(),
    {
        if rows.len() == 0 {
            Seq::empty()
        } else {
            let (row, w) = rows.last();
            self.flips(rows.drop_last(), was, now) + self.emission(row, -w, was) + self.emission(
                row,
                w,
                now,
            )
        }
    }

    /// What the change of one count puts out.
    pub open spec fn key_term(
        &self,
        entries: Seq<(Address, int)>,
        key: Seq<Datum>,
        d: int,
    ) -> Seq<Change> {
        let was = self.count(entries, key) != 0;
        let now = self.count(entries, key) + d != 0;
        if was == now {
            Seq::empty()
        } else {
            self.flips(rows_at(entries, self.l_index(), key), was, now)
        }
    }

    /// What the changes of some counts put out.
    pub open spec fn r_term(
        &self,
        entries: Seq<(Address, int)>,
        keys: Seq<Change>,
    ) -> Seq<Change>
        decreases keys.len(),
    {
        if keys.len() == 0 {
            Seq::empty()
        } else {
            self.r_term(entries, keys.drop_last()) + self.key_term(
                entries,
                keys.last().0.values,
                keys.last().1,
            )
        }
    }

    /// What some left changes put out.
    pub open spec fn l_term(
        &self,
        entries: Seq<(Address, int)>,
        left: Seq<Change>,
        keys: Seq<Change>,
    ) -> Seq<Change>
        decreases left.len(),
    {
        if left.len() == 0 {
            Seq::empty()
        } else {
            let (row, w) = left.last();
            let key = self.left_key(row);
            self.l_term(entries, left.drop_last(), keys) + self.emission(
                row,
                w,
                self.count(entries, key) + weight(keys, key_row(key)) != 0,
            )
        }
    }

    /// An evaluation that has come this far: what it has put out is the right beginning.
    pub open spec fn on_course(
        &self,
        entries: Seq<(Address, int)>,
        left: Seq<Change>,
        keys: Seq<Change>,
        v: EvalView,
    ) -> bool {
        match v {
            EvalView::Right { left: l, output, keys: k, at, scan, .. } => {
                &&& l == left
                &&& k == keys
                &&& 0 <= at <= keys.len()
                &&& match scan {
                    ScanView::Rows { was, from } => {
                        &&& at < keys.len()
                        &&& 0 <= from <= entries.len()
                        &&& (self.count(entries, keys[at].0.values) != 0) == was
                        &&& (self.count(entries, keys[at].0.values) + keys[at].1 != 0) == !was
                        &&& output == self.r_term(entries, keys.take(at)) + self.flips(
                            rows_at(entries.take(from), self.l_index(), keys[at].0.values),
                            was,
                            !was,
                        )
                    },
                    _ => output == self.r_term(entries, keys.take(at)),
                }
            },
            EvalView::Left { left: l, output, keys: k, at, .. } => {
                &&& l == left
                &&& k == keys
                &&& 0 <= at <= left.len()
                &&& output == self.r_term(entries, keys) + self.l_term(
                    entries,
                    left.take(at),
                    keys,
                )
            },
            EvalView::Done { output } => output == self.r_term(entries, keys) + self.l_term(
                entries,
                left,
                keys,
            ),
        }
    }

    /// Whether some changes are those that right changes make to the counts of their keys.
    pub open spec fn counts_change(&self, keys: Seq<Change>, right: Seq<Change>) -> bool {
        &&& normal(keys)
        &&& equivalent(keys, self.key_changes(right))
        &&& forall|i: int| 0 <= i < keys.len() ==> (#[trigger] keys[i]).0.rowid == 0
    }

    /// Whether an evaluation of some changes has just begun.
    pub open spec fn begun(&self, v: EvalView, left: Seq<Change>, right: Seq<Change>) -> bool {
        &&& v matches EvalView::Right { left: l, output, keys, at, scan, .. }
        &&& equivalent(l, left)
        &&& normal(l)
        &&& self.counts_change(keys, right)
        &&& mass(keys) <= mass(right)
        &&& mass(l) <= mass(left)
        &&& output == Seq::<Change>::empty()
        &&& at == 0
        &&& scan == ScanView::Idle
    }

    /// The changes that right changes make to the counts of their keys, in the order in which they
    /// are looked at.
    pub open spec fn keys_for(&self, right: Seq<Change>) -> Seq<Change> {
        by_digest(added_up(self.key_changes(added_up(right))))
    }

    /// An evaluation of some changes that has just begun.
    pub open spec fn beginning(&self, left: Seq<Change>, right: Seq<Change>) -> EvalView {
        EvalView::Right {
            left: added_up(left),
            right: added_up(right),
            output: Seq::empty(),
            keys: self.keys_for(right),
            seen: Seq::new(self.keys_for(right).len(), |i: int| None::<int>),
            at: 0,
            scan: ScanView::Idle,
        }
    }

    /// What an evaluation of some changes puts out: for every key whose count crosses zero the left
    /// rows under it, taken back as they were shown and shown as they are, then the left changes.
    pub open spec fn output(
        &self,
        entries: Seq<(Address, int)>,
        left: Seq<Change>,
        right: Seq<Change>,
    ) -> Seq<Change> {
        self.r_term(entries, self.keys_for(right)) + self.l_term(
            entries,
            added_up(left),
            self.keys_for(right),
        )
    }

    /// What is left to do, in units of the steps of each phase.
    spec fn remaining(
        &self,
        entries: Seq<(Address, int)>,
        v: EvalView,
    ) -> (int, int, int, int) {
        match v {
            EvalView::Right { keys, at, scan, .. } => match scan {
                ScanView::Idle => (2, keys.len() - at, 2, 0),
                ScanView::Reading => (2, keys.len() - at, 1, 0),
                ScanView::Rows { from, .. } => (2, keys.len() - at, 0, entries.len() - from),
            },
            EvalView::Left { left, at, reading, .. } => (
                1,
                left.len() - at,
                if reading {
                    0
                } else {
                    1
                },
                0,
            ),
            EvalView::Done { .. } => (0, 0, 0, 0),
        }
    }

    spec fn shrinks(before: (int, int, int, int), after: (int, int, int, int)) -> bool {
        &&& after.0 >= 0 && after.1 >= 0 && after.2 >= 0 && after.3 >= 0
        &&& {
            ||| after.0 < before.0
            ||| after.0 == before.0 && after.1 < before.1
            ||| after.0 == before.0 && after.1 == before.1 && after.2 < before.2
            ||| after.0 == before.0 && after.1 == before.1 && after.2 == before.2 && after.3
                < before.3
        }
    }

    /// A step on what the state says keeps an evaluation on course and brings it nearer its end.
    proof fn lemma_step(
        &self,
        entries: Seq<(Address, int)>,
        left: Seq<Change>,
        keys: Seq<Change>,
        v: EvalView,
        answer: AnswerView,
    )
        requires
            self.on_course(entries, left, keys, v),
            self.answers(entries, self.requested(v), answer),
            !(v is Done),
        ensures
            self.on_course(entries, left, keys, self.stepped(v, answer)),
            Self::shrinks(
                self.remaining(entries, v),
                self.remaining(entries, self.stepped(v, answer)),
            ),
    {
        match v {
            EvalView::Right { output, at, scan, .. } => {
                if at >= keys.len() {
                    assert(keys.take(at) =~= keys);
                    assert(left.take(0) =~= Seq::<Change>::empty());
                    assert(output + Seq::<Change>::empty() =~= output);
                } else {
                    let key = keys[at].0.values;
                    assert(keys.take(at + 1).drop_last() =~= keys.take(at));
                    assert(keys.take(at + 1).last() == keys[at]);
                    match scan {
                        ScanView::Idle => {},
                        ScanView::Reading => {
                            assert(entries.take(0) =~= Seq::<(Address, int)>::empty());
                            assert(output + Seq::<Change>::empty() =~= output);
                        },
                        ScanView::Rows { was, from } => {
                            let seen = rows_at(entries.take(from), self.l_index(), key);
                            match answer {
                                AnswerView::LeftRow(Some(found)) => {
                                    assert(seen.push((found.0, found.1)).drop_last() =~= seen);
                                    let base = self.r_term(entries, keys.take(at));
                                    let e1 = self.emission(found.0, -found.1, was);
                                    let e2 = self.emission(found.0, found.1, !was);
                                    let f = self.flips(seen, was, !was);
                                    assert(base + f + e1 + e2 =~= base + (f + e1 + e2));
                                },
                                _ => {},
                            }
                        },
                    }
                }
            },
            EvalView::Left { at, reading, .. } => {
                if at >= left.len() {
                    assert(left.take(at) =~= left);
                } else if reading {
                    let (row, w) = left[at];
                    let key = self.left_key(row);
                    assert(left.take(at + 1).drop_last() =~= left.take(at));
                    assert(left.take(at + 1).last() == left[at]);
                    let a = self.r_term(entries, keys);
                    let b = self.l_term(entries, left.take(at), keys);
                    let c = self.emission(
                        row,
                        w,
                        self.count(entries, key) + weight(keys, key_row(key)) != 0,
                    );
                    assert(a + b + c =~= a + (b + c));
                }
            },
            EvalView::Done { .. } => {},
        }
    }

    /// Room for every sum of weights that an evaluation forms.
    pub open spec fn fits(
        entries: Seq<(Address, int)>,
        left: Seq<Change>,
        right: Seq<Change>,
    ) -> bool {
        mass(entries) + mass(left) + mass(right) <= isize::MAX
    }

    pub fn new(
        operator_id: i64,
        left_key_indices: Vec<usize>,
        right_key_indices: Vec<usize>,
        mode: EmitMode,
    ) -> (r: Self)
        ensures
            r.operator_id == operator_id,
            r.left_key_indices == left_key_indices,
            r.right_key_indices == right_key_indices,
            r.mode == mode,
    {
        AntijoinOperator { operator_id, left_key_indices, right_key_indices, mode }
    }

    fn l_index_storage_id(&self) -> (r: i64)
        requires
            self.wf(),
        ensures
            r == self.l_index(),
    {
        generate_storage_id(self.operator_id, 0, JOIN_TYPE_BIT)
    }

    fn r_count_storage_id(&self) -> (r: i64)
        requires
            self.wf(),
        ensures
            r == self.r_count(),
    {
        generate_storage_id(self.operator_id, 1, JOIN_TYPE_BIT)
    }

    fn extract_key(values: &Vec<Value>, indices: &Vec<usize>) -> (r: HashableRow)
        ensures
            r@ == key_row(project(data(values@), indices@)),
            r@.values.len() == indices@.len(),
            forall|i: int|
                0 <= i < indices@.len() ==> #[trigger] r@.values[i] == (if indices@[i]
                    < values@.len() {
                    values@[indices@[i] as int]@
                } else {
                    Datum::Null
                }),
    {
        let mut key: Vec<Value> = Vec::new();
        let mut i: usize = 0;
        while i < indices.len()
            invariant
                i <= indices.len(),
                data(key@) == project(data(values@), indices@).take(i as int),
            decreases indices.len() - i,
        {
            let at: usize = indices[i];
            let v = if at < values.len() {
                values[at].clone()
            } else {
                Value::Null
            };
            let ghost before = key@;
            key.push(v);
            i += 1;
            assert(data(key@) =~= data(before).push(v@));
            assert(data(key@) =~= project(data(values@), indices@).take(i as int));
        }
        assert(data(key@) =~= project(data(values@), indices@));
        HashableRow::new(0, key)
    }

    /// The row shown for a left row, if one is.
    fn show(&self, row: &HashableRow, matched: bool) -> (r: Option<HashableRow>)
        ensures
            row_view(r) == self.shown_row(row@, matched),
    {
        match self.mode {
            EmitMode::NullPad { right_column_count } => if matched {
                None
            } else {
                Some(Self::null_pad(row, right_column_count))
            },
            EmitMode::Indicator => {
                let mut values = row.clone().values;
                let ghost before = values@;
                values.push(
                    Value::from_i64(
                        if matched {
                            1
                        } else {
                            0
                        },
                    ),
                );
                assert(data(values@) =~= data(before).push(
                    int_datum(
                        if matched {
                            1
                        } else {
                            0
                        },
                    ),
                ));
                Some(derive_row(values))
            },
        }
    }

    fn null_pad(row: &HashableRow, right_column_count: usize) -> (r: HashableRow)
        ensures
            r@ == derived_row(
                row@.values + Seq::new(right_column_count as nat, |i: int| Datum::Null),
            ),
    {
        let mut values = row.clone().values;
        let mut i: usize = 0;
        while i < right_column_count
            invariant
                i <= right_column_count,
                data(values@) =~= row@.values + Seq::new(i as nat, |j: int| Datum::Null),
            decreases right_column_count - i,
        {
            let ghost before = values@;
            values.push(Value::Null);
            i += 1;
            assert(data(values@) =~= data(before).push(Datum::Null));
        }
        derive_row(values)
    }

    fn emit(&self, output: &mut Delta, row: &HashableRow, w: isize, matched: bool)
        ensures
            final(output)@ == old(output)@ + self.emission(row@, w as int, matched),
    {
        let ghost before = output@;
        if w != 0 {
            if let Some(p) = self.show(row, matched) {
                output.push(p, w);
            }
        }
        assert(output@ =~= before + self.emission(row@, w as int, matched));
    }

    /// The net change of the count of every key, NULL keys left out, unchanged counts left out.
    fn compute_key_deltas(&self, right_delta: &Delta) -> (r: Delta)
        requires
            mass(right_delta@) <= isize::MAX,
        ensures
            r@ == added_up(self.key_changes(right_delta@)),
            normal(r@),
            equivalent(r@, self.key_changes(right_delta@)),
            mass(r@) <= mass(right_delta@),
            forall|i: int| 0 <= i < r@.len() ==> (#[trigger] r@[i]).0.rowid == 0,
    {
        let mut out = Delta::new();
        let ghost right = right_delta@;
        let mut i: usize = 0;
        assert(right.take(0) =~= Seq::<Change>::empty());
        while i < right_delta.changes.len()
            invariant
                i <= right_delta.changes.len(),
                right == right_delta@,
                out@ == self.key_changes(right.take(i as int)),
                mass(out@) <= mass(right.take(i as int)),
            decreases right_delta.changes.len() - i,
        {
            let row = &right_delta.changes[i].0;
            let w: isize = right_delta.changes[i].1;
            proof {
                assert(right.take(i + 1).drop_last() =~= right.take(i as int));
                assert(right.take(i + 1).last() == (row@, w as int));
            }
            let key = Self::extract_key(&row.values, &self.right_key_indices);
            if !any_null(&key.values) {
                proof {
                    lemma_mass_push(out@, (key@, w as int));
                }
                out.push(key, w);
            }
            i += 1;
        }
        assert(right.take(i as int) =~= right);
        let ghost summed = out@;
        out.consolidate();
        proof {
            assert forall|j: int| 0 <= j < out@.len() implies (#[trigger] out@[j]).0.rowid == 0 by {
                lemma_weight_distinct(out@, j);
                let row = out@[j].0;
                assert(weight(out@, row) == weight(summed, row));
                if row.rowid != 0 {
                    self.lemma_key_rows(right);
                    lemma_weight_absent(summed, row);
                }
            }
        }
        out
    }

    proof fn lemma_key_rows(&self, right: Seq<Change>)
        ensures
            forall|i: int|
                0 <= i < self.key_changes(right).len() ==> (#[trigger] self.key_changes(
                    right,
                )[i]).0.rowid == 0,
        decreases right.len(),
    {
        if right.len() > 0 {
            self.lemma_key_rows(right.drop_last());
            let front = self.key_changes(right.drop_last());
            let all = self.key_changes(right);
            assert forall|i: int| 0 <= i < all.len() implies (#[trigger] all[i]).0.rowid == 0 by {
                if i < front.len() {
                    assert(all[i] == front[i]);
                }
            }
        }
    }

    /// Begins an evaluation of some changes: they are added up, and the keys are listed whose
    /// counts they change, in the order of their digests.
    pub fn begin(&self, deltas: DeltaPair) -> (r: AntijoinEvalState)
        requires
            mass(deltas.left@) <= isize::MAX,
            mass(deltas.right@) <= isize::MAX,
        ensures
            r.wf(),
            r@ == self.beginning(deltas.left@, deltas.right@),
            self.begun(r@, deltas.left@, deltas.right@),
    {
        let ghost right = deltas.right@;
        let mut deltas = deltas;
        deltas.left.consolidate();
        deltas.right.consolidate();
        let key_deltas = self.compute_key_deltas(&deltas.right);
        let ghost keys = key_deltas@;
        proof {
            assert(equivalent(deltas.right@, right));
            assert forall|k: RowView| #[trigger]
                weight(keys, k) == weight(self.key_changes(right), k) by {
                self.lemma_key_changes_of_equivalent(deltas.right@, right, k);
                assert(weight(keys, k) == weight(self.key_changes(deltas.right@), k));
            }
        }
        let mut affected_keys: Vec<AffectedKey> = Vec::new();
        let mut i: usize = 0;
        assert(affected(affected_keys@) =~= Seq::<Change>::empty());
        assert(keys.take(0) =~= Seq::<Change>::empty());
        while i < key_deltas.changes.len()
            invariant
                i <= key_deltas.changes.len(),
                keys == key_deltas@,
                affected(affected_keys@) == by_digest(keys.take(i as int)),
                forall|j: int| 0 <= j < affected_keys@.len() ==> (#[trigger] affected_keys@[j]).c_pre
                    is None,
            decreases key_deltas.changes.len() - i,
        {
            let key = AffectedKey {
                join_key: key_deltas.changes[i].0.clone(),
                delta_count: key_deltas.changes[i].1,
                c_pre: None,
            };
            proof {
                assert(keys[i as int] == (key.join_key@, key.delta_count as int));
                assert(keys.take(i + 1).drop_last() =~= keys.take(i as int));
                assert(keys.take(i + 1).last() == keys[i as int]);
            }
            place_key(&mut affected_keys, key);
            i += 1;
        }
        assert(keys.take(i as int) =~= keys);
        let output = Delta::new();
        assert(output@ =~= Seq::<Change>::empty());
        proof {
            let sorted = by_digest(keys);
            lemma_by_digest(keys);
            assert forall|k: int| 0 <= k < sorted.len() implies (#[trigger] sorted[k]).0.rowid == 0
                && sorted[k].1 != 0 by {
                let j = choose|j: int| 0 <= j < keys.len() && keys[j] == sorted[k];
                assert(keys[j].0.rowid == 0 && keys[j].1 != 0);
            }
            assert forall|k: RowView| #[trigger]
                weight(sorted, k) == weight(self.key_changes(right), k) by {
                assert(weight(sorted, k) == weight(keys, k));
            }
            assert(counts_seen(affected_keys@) =~= Seq::new(
                self.keys_for(right).len(),
                |i: int| None::<int>,
            ));
        }
        AntijoinEvalState::EmitRTransitions {
            deltas,
            output,
            affected_keys,
            key_idx: 0,
            sub: RKeyScan::Idle,
        }
    }

    /// Tells what an evaluation has to know next.
    pub fn request(&self, state: &AntijoinEvalState) -> (r: StateRequest)
        requires
            state.wf(),
        ensures
            r@ == self.requested(state@),
    {
        match state {
            AntijoinEvalState::EmitRTransitions {
                deltas: _,
                output: _,
                affected_keys,
                key_idx,
                sub,
            } => {
                if *key_idx >= affected_keys.len() {
                    return StateRequest::Nothing;
                }
                let join_key = &affected_keys[*key_idx].join_key;
                assert(affected(affected_keys@)[*key_idx as int].0 == join_key@);
                match sub {
                    RKeyScan::Idle => StateRequest::Nothing,
                    RKeyScan::ReadingRCount => StateRequest::Count {
                        key: copy_values(&join_key.values),
                    },
                    RKeyScan::ScanningL { indicator_delta: _, next } => StateRequest::LeftRow {
                        key: copy_values(&join_key.values),
                        from: *next,
                    },
                }
            },
            AntijoinEvalState::ProcessLDelta {
                deltas,
                output: _,
                right_count_deltas: _,
                l_idx,
                sub,
            } => {
                if *l_idx >= deltas.left.changes.len() {
                    return StateRequest::Nothing;
                }
                match sub {
                    LRowResolve::Idle => StateRequest::Nothing,
                    LRowResolve::ReadingRCount => {
                        let l_row = &deltas.left.changes[*l_idx].0;
                        assert(deltas.left@[*l_idx as int].0 == l_row@);
                        let l_key = Self::extract_key(&l_row.values, &self.left_key_indices);
                        StateRequest::Count { key: l_key.values }
                    },
                }
            },
            AntijoinEvalState::Done { output: _ } => StateRequest::Nothing,
        }
    }

    /// The changes of the counts of the affected keys, as a delta.
    fn counts_of(affected_keys: &Vec<AffectedKey>) -> (r: Delta)
        ensures
            r@ == affected(affected_keys@),
    {
        let mut out = Delta::new();
        let mut i: usize = 0;
        let ghost all = affected(affected_keys@);
        assert(out@ =~= all.take(0));
        while i < affected_keys.len()
            invariant
                i <= affected_keys.len(),
                all == affected(affected_keys@),
                out@ == all.take(i as int),
            decreases affected_keys.len() - i,
        {
            out.push(affected_keys[i].join_key.clone(), affected_keys[i].delta_count);
            i += 1;
            assert(all.take(i as int) =~= all.take(i - 1).push(all[i - 1]));
        }
        assert(all.take(i as int) =~= all);
        out
    }

    /// Takes one step of an evaluation, on what it asked for.
    pub fn process_state(&self, inner: AntijoinEvalState, answer: StateAnswer) -> (next:
        AntijoinEvalState)
        requires
            inner.wf(),
            self.answer_fits(inner@, answer@),
        ensures
            next.wf(),
            next@ == self.stepped(inner@, answer@),
    {
        match inner {
            AntijoinEvalState::EmitRTransitions {
                deltas,
                output,
                affected_keys,
                key_idx,
                sub,
            } => {
                if key_idx >= affected_keys.len() {
                    let right_count_deltas = Self::counts_of(&affected_keys);
                    return AntijoinEvalState::ProcessLDelta {
                        deltas,
                        output,
                        right_count_deltas,
                        l_idx: 0,
                        sub: LRowResolve::Idle,
                    };
                }
                assert(affected(affected_keys@)[key_idx as int] == (
                    affected_keys@[key_idx as int].join_key@,
                    affected_keys@[key_idx as int].delta_count as int,
                ));
                match (sub, answer) {
                    (RKeyScan::Idle, _) => AntijoinEvalState::EmitRTransitions {
                        deltas,
                        output,
                        affected_keys,
                        key_idx,
                        sub: RKeyScan::ReadingRCount,
                    },
                    (RKeyScan::ReadingRCount, StateAnswer::Count(c_pre)) => {
                        let delta_count: isize = affected_keys[key_idx].delta_count;
                        let c_post: isize = c_pre + delta_count;
                        let mut affected_keys = affected_keys;
                        let ghost listed = affected_keys@;
                        let join_key = affected_keys[key_idx].join_key.clone();
                        affected_keys.set(
                            key_idx,
                            AffectedKey { join_key, delta_count, c_pre: Some(c_pre) },
                        );
                        assert(affected(affected_keys@) =~= affected(listed));
                        assert(counts_seen(affected_keys@) =~= counts_seen(listed).update(
                            key_idx as int,
                            Some(c_pre as int),
                        ));
                        let indicator_delta: isize = (if c_post == 0 {
                            1isize
                        } else {
                            0
                        }) - (if c_pre == 0 {
                            1isize
                        } else {
                            0
                        });
                        if indicator_delta == 0 {
                            AntijoinEvalState::EmitRTransitions {
                                deltas,
                                output,
                                affected_keys,
                                key_idx: key_idx + 1,
                                sub: RKeyScan::Idle,
                            }
                        } else {
                            AntijoinEvalState::EmitRTransitions {
                                deltas,
                                output,
                                affected_keys,
                                key_idx,
                                sub: RKeyScan::ScanningL { indicator_delta, next: 0 },
                            }
                        }
                    },
                    (
                        RKeyScan::ScanningL { .. },
                        StateAnswer::LeftRow(None),
                    ) => AntijoinEvalState::EmitRTransitions {
                        deltas,
                        output,
                        affected_keys,
                        key_idx: key_idx + 1,
                        sub: RKeyScan::Idle,
                    },
                    (
                        RKeyScan::ScanningL { indicator_delta, next: _ },
                        StateAnswer::LeftRow(Some(found)),
                    ) => {
                        let mut output = output;
                        self.emit(&mut output, &found.row, -found.weight, indicator_delta == 1);
                        self.emit(&mut output, &found.row, found.weight, indicator_delta == -1);
                        AntijoinEvalState::EmitRTransitions {
                            deltas,
                            output,
                            affected_keys,
                            key_idx,
                            sub: RKeyScan::ScanningL { indicator_delta, next: found.next },
                        }
                    },
                    (sub, _) => AntijoinEvalState::EmitRTransitions {
                        deltas,
                        output,
                        affected_keys,
                        key_idx,
                        sub,
                    },
                }
            },
            AntijoinEvalState::ProcessLDelta {
                deltas,
                output,
                right_count_deltas,
                l_idx,
                sub,
            } => {
                if l_idx >= deltas.left.changes.len() {
                    return AntijoinEvalState::Done { output };
                }
                match (sub, answer) {
                    (LRowResolve::Idle, _) => AntijoinEvalState::ProcessLDelta {
                        deltas,
                        output,
                        right_count_deltas,
                        l_idx,
                        sub: LRowResolve::ReadingRCount,
                    },
                    (LRowResolve::ReadingRCount, StateAnswer::Count(c_pre)) => {
                        let l_row = &deltas.left.changes[l_idx].0;
                        let l_weight: isize = deltas.left.changes[l_idx].1;
                        assert(deltas.left@[l_idx as int] == (l_row@, l_weight as int));
                        let l_key = Self::extract_key(&l_row.values, &self.left_key_indices);
                        let dr: isize = weight_of(&right_count_deltas, &l_key);
                        let c_post: isize = c_pre + dr;
                        let mut output = output;
                        self.emit(&mut output, l_row, l_weight, c_post != 0);
                        AntijoinEvalState::ProcessLDelta {
                            deltas,
                            output,
                            right_count_deltas,
                            l_idx: l_idx + 1,
                            sub: LRowResolve::Idle,
                        }
                    },
                    (sub, _) => AntijoinEvalState::ProcessLDelta {
                        deltas,
                        output,
                        right_count_deltas,
                        l_idx,
                        sub,
                    },
                }
            },
            AntijoinEvalState::Done { output } => AntijoinEvalState::Done { output },
        }
    }

    /// Answers a request from the state.
    fn answer(&self, request: StateRequest, table: &StateTable) -> (r: StateAnswer)
        requires
            self.wf(),
            table.wf(),
            request@ matches RequestView::LeftRow { key, from } ==> from <= table@.len(),
        ensures
            self.answers(table@, request@, r@),
            r@ matches AnswerView::Count(c) ==> request@ matches RequestView::Count { key } && c
                == self.count(table@, key),
            r@ matches AnswerView::LeftRow(Some(found)) ==> abs(found.1) <= mass(table@),
    {
        match request {
            StateRequest::Nothing => StateAnswer::Nothing,
            StateRequest::Count { key } => StateAnswer::Count(
                table.read_weight(self.r_count_storage_id(), &key, &None),
            ),
            StateRequest::LeftRow { key, from } => {
                let found = table.next_row(self.l_index_storage_id(), &key, from);
                proof {
                    if found is Some {
                        let s = found->Some_0;
                        let entry = (
                            Address {
                                storage_id: self.l_index(),
                                key: data(key@),
                                row: Some(s.row@),
                            },
                            s.weight as int,
                        );
                        let at = choose|at: int| 0 <= at < table@.len() && table@[at] == entry;
                        lemma_mass_update(table@, at, 0);
                        lemma_mass_nonneg(table@.update(at, (table@[at].0, 0)));
                    }
                }
                StateAnswer::LeftRow(found)
            },
        }
    }

    // The output as a Z-set.

    spec fn shows_if(&self, matched: bool, p: RowView) -> spec_fn(RowView) -> bool {
        |l: RowView| self.shown_row(l, matched) == Some(p)
    }

    proof fn lemma_emission(&self, row: RowView, w: int, matched: bool, p: RowView)
        ensures
            weight(self.emission(row, w, matched), p) == (if self.shown_row(row, matched) == Some(
                p,
            ) {
                w
            } else {
                0
            }),
    {
        let e = self.emission(row, w, matched);
        if e.len() > 0 {
            assert(e.drop_last() =~= Seq::<Change>::empty());
            assert(weight(e.drop_last(), p) == 0);
        }
    }

    proof fn lemma_flips(&self, rows: Seq<Change>, was: bool, now: bool, p: RowView)
        ensures
            weight(self.flips(rows, was, now), p) == sum_where(rows, self.shows_if(now, p))
                - sum_where(rows, self.shows_if(was, p)),
        decreases rows.len(),
    {
        if rows.len() > 0 {
            let (row, w) = rows.last();
            self.lemma_flips(rows.drop_last(), was, now, p);
            let f = self.flips(rows.drop_last(), was, now);
            let e1 = self.emission(row, -w, was);
            let e2 = self.emission(row, w, now);
            lemma_weight_concat(f + e1, e2, p);
            lemma_weight_concat(f, e1, p);
            self.lemma_emission(row, -w, was, p);
            self.lemma_emission(row, w, now, p);
        }
    }

    proof fn lemma_l_term(
        &self,
        entries: Seq<(Address, int)>,
        left: Seq<Change>,
        right: Seq<Change>,
        keys: Seq<Change>,
        p: RowView,
    )
        requires
            equivalent(keys, self.key_changes(right)),
        ensures
            weight(self.l_term(entries, left, keys), p) == self.shown(
                left,
                self.matched_post(entries, right),
                p,
            ),
        decreases left.len(),
    {
        if left.len() > 0 {
            let (row, w) = left.last();
            let key = self.left_key(row);
            self.lemma_l_term(entries, left.drop_last(), right, keys, p);
            assert(weight(keys, key_row(key)) == weight(self.key_changes(right), key_row(key)));
            let m = self.count(entries, key) + weight(keys, key_row(key)) != 0;
            lemma_weight_concat(
                self.l_term(entries, left.drop_last(), keys),
                self.emission(row, w, m),
                p,
            );
            self.lemma_emission(row, w, m, p);
        }
    }

    /// Two ways of matching that differ at one key alone differ in what they show by the rows
    /// under that key.
    proof fn lemma_one_key(
        &self,
        entries: Seq<(Address, int)>,
        was: spec_fn(Seq<Datum>) -> bool,
        now: spec_fn(Seq<Datum>) -> bool,
        key: Seq<Datum>,
        p: RowView,
    )
        requires
            self.filed(entries),
            forall|k: Seq<Datum>| k != key ==> #[trigger] was(k) == now(k),
        ensures
            self.shown(self.left_rows(entries), now, p) - self.shown(
                self.left_rows(entries),
                was,
                p,
            ) == sum_where(
                rows_at(entries, self.l_index(), key),
                self.shows_if(now(key), p),
            ) - sum_where(rows_at(entries, self.l_index(), key), self.shows_if(was(key), p)),
        decreases entries.len(),
    {
        if entries.len() > 0 {
            let front = entries.drop_last();
            assert forall|i: int|
                0 <= i < front.len() && (#[trigger] front[i]).0.storage_id == self.l_index()
                    && front[i].0.row is Some implies front[i].0.key == self.left_key(
                front[i].0.row->Some_0,
            ) by {
                assert(front[i] == entries[i]);
            }
            self.lemma_one_key(front, was, now, key, p);
            let (a, w) = entries.last();
            if a.storage_id == self.l_index() && a.row is Some {
                let row = a.row->Some_0;
                assert(entries[entries.len() - 1].0.key == self.left_key(row));
                lemma_sum_where_push(self.left_rows(front), (row, w), self.shows(now, p));
                lemma_sum_where_push(self.left_rows(front), (row, w), self.shows(was, p));
                let at = rows_at(front, self.l_index(), key);
                lemma_sum_where_push(at, (row, w), self.shows_if(now(key), p));
                lemma_sum_where_push(at, (row, w), self.shows_if(was(key), p));
                if a.key != key {
                    assert(was(a.key) == now(a.key));
                }
            }
        }
    }

    spec fn matched_by(&self, entries: Seq<(Address, int)>, keys: Seq<Change>) -> spec_fn(
        Seq<Datum>,
    ) -> bool {
        |key: Seq<Datum>| self.count(entries, key) + weight(keys, key_row(key)) != 0
    }

    proof fn lemma_r_term(
        &self,
        entries: Seq<(Address, int)>,
        keys: Seq<Change>,
        n: int,
        p: RowView,
    )
        requires
            self.filed(entries),
            distinct(keys),
            forall|i: int| 0 <= i < keys.len() ==> (#[trigger] keys[i]).0.rowid == 0,
            0 <= n <= keys.len(),
        ensures
            weight(self.r_term(entries, keys.take(n)), p) == self.shown(
                self.left_rows(entries),
                self.matched_by(entries, keys.take(n)),
                p,
            ) - self.shown(
                self.left_rows(entries),
                self.matched_by(entries, Seq::<Change>::empty()),
                p,
            ),
        decreases n,
    {
        if n == 0 {
            assert(keys.take(0) =~= Seq::<Change>::empty());
        } else {
            self.lemma_r_term(entries, keys, n - 1, p);
            let before = keys.take(n - 1);
            let after = keys.take(n);
            assert(after.drop_last() =~= before);
            let (row, d) = keys[n - 1];
            assert(after.last() == keys[n - 1]);
            let key = row.values;
            assert(row == key_row(key));
            let was = self.matched_by(entries, before);
            let now = self.matched_by(entries, after);
            assert forall|k: Seq<Datum>| k != key implies #[trigger] was(k) == now(k) by {
                assert(after =~= before.push((row, d)));
                lemma_weight_push(before, (row, d), key_row(k));
                assert(key_row(k).values != row.values);
            }
            assert forall|i: int| 0 <= i < before.len() implies (#[trigger] before[i]).0 != row by {
                assert(before[i] == keys[i]);
                assert(keys[n - 1].0 == row);
            }
            lemma_weight_absent(before, row);
            assert(after =~= before.push((row, d)));
            lemma_weight_push(before, (row, d), row);
            self.lemma_one_key(entries, was, now, key, p);
            let term = self.key_term(entries, key, d);
            lemma_weight_concat(self.r_term(entries, before), term, p);
            self.lemma_flips(
                rows_at(entries, self.l_index(), key),
                self.count(entries, key) != 0,
                self.count(entries, key) + d != 0,
                p,
            );
        }
    }

    /// The output that an evaluation builds up is the change of what is shown.
    proof fn lemma_output(
        &self,
        entries: Seq<(Address, int)>,
        left: Seq<Change>,
        right: Seq<Change>,
        keys: Seq<Change>,
        p: RowView,
    )
        requires
            self.filed(entries),
            distinct(keys),
            forall|i: int| 0 <= i < keys.len() ==> (#[trigger] keys[i]).0.rowid == 0,
            equivalent(keys, self.key_changes(right)),
        ensures
            weight(self.r_term(entries, keys) + self.l_term(entries, left, keys), p)
                == self.output_weight(entries, left, right, p),
    {
        lemma_weight_concat(
            self.r_term(entries, keys),
            self.l_term(entries, left, keys),
            p,
        );
        assert(keys.take(keys.len() as int) =~= keys);
        self.lemma_r_term(entries, keys, keys.len() as int, p);
        self.lemma_l_term(entries, left, right, keys, p);
        let empty = Seq::<Change>::empty();
        assert forall|k: Seq<Datum>| #[trigger] self.matched_by(entries, empty)(k)
            == self.matched_pre(entries)(k) by {
            assert(weight(empty, key_row(k)) == 0);
        }
        assert(self.matched_by(entries, empty) =~= self.matched_pre(entries));
        assert forall|k: Seq<Datum>| #[trigger] self.matched_by(entries, keys)(k)
            == self.matched_post(entries, right)(k) by {
            assert(weight(keys, key_row(k)) == weight(self.key_changes(right), key_row(k)));
        }
        assert(self.matched_by(entries, keys) =~= self.matched_post(entries, right));
    }

    /// Consolidating the inputs does not change what the output weighs.
    proof fn lemma_output_of_equivalent(
        &self,
        entries: Seq<(Address, int)>,
        left: Seq<Change>,
        right: Seq<Change>,
        left2: Seq<Change>,
        right2: Seq<Change>,
        p: RowView,
    )
        requires
            equivalent(left, left2),
            equivalent(right, right2),
        ensures
            self.output_weight(entries, left, right, p) == self.output_weight(
                entries,
                left2,
                right2,
                p,
            ),
    {
        assert forall|k: Seq<Datum>| #[trigger] self.matched_post(entries, right)(k)
            == self.matched_post(entries, right2)(k) by {
            self.lemma_key_changes_of_equivalent(right, right2, key_row(k));
        }
        assert(self.matched_post(entries, right) =~= self.matched_post(entries, right2));
        law_sums_depend_on_weights_alone(
            left,
            left2,
            self.shows(self.matched_post(entries, right), p),
        );
    }

    spec fn carries(&self, k: RowView) -> spec_fn(RowView) -> bool {
        |r: RowView| !has_null(self.right_key(r)) && key_row(self.right_key(r)) == k
    }

    proof fn lemma_key_changes_sum(&self, right: Seq<Change>, k: RowView)
        ensures
            weight(self.key_changes(right), k) == sum_where(right, self.carries(k)),
        decreases right.len(),
    {
        if right.len() > 0 {
            self.lemma_key_changes_sum(right.drop_last(), k);
            let (row, w) = right.last();
            if !has_null(self.right_key(row)) {
                lemma_weight_push(
                    self.key_changes(right.drop_last()),
                    (key_row(self.right_key(row)), w),
                    k,
                );
            }
        }
    }

    proof fn lemma_key_changes_of_equivalent(
        &self,
        right: Seq<Change>,
        right2: Seq<Change>,
        k: RowView,
    )
        requires
            equivalent(right, right2),
        ensures
            weight(self.key_changes(right), k) == weight(self.key_changes(right2), k),
    {
        self.lemma_key_changes_sum(right, k);
        self.lemma_key_changes_sum(right2, k);
        law_sums_depend_on_weights_alone(right, right2, self.carries(k));
    }

    /// What a state answers can be reckoned with.
    proof fn lemma_answer_fits(
        &self,
        entries: Seq<(Address, int)>,
        left: Seq<Change>,
        keys: Seq<Change>,
        v: EvalView,
        answer: AnswerView,
    )
        requires
            mass(entries) + mass(keys) <= isize::MAX,
            self.on_course(entries, left, keys, v),
            answer matches AnswerView::Count(c) ==> self.requested(v) matches RequestView::Count {
                key,
            } && c == self.count(entries, key),
            answer matches AnswerView::LeftRow(Some(found)) ==> abs(found.1) <= mass(entries),
        ensures
            self.answer_fits(v, answer),
    {
        lemma_mass_nonneg(keys);
        lemma_mass_nonneg(entries);
        if let RequestView::Count { key } = self.requested(v) {
            lemma_weight_within_mass(
                entries,
                Address { storage_id: self.r_count(), key, row: None },
            );
            match v {
                EvalView::Right { at, .. } => {
                    lemma_mass_update(keys, at, 0);
                    lemma_mass_nonneg(keys.update(at, (keys[at].0, 0)));
                },
                EvalView::Left { .. } => {
                    lemma_weight_within_mass(keys, key_row(key));
                },
                _ => {},
            }
        }
    }

    /// Takes one step of an evaluation against the state.
    fn step(
        &self,
        state: AntijoinEvalState,
        table: &StateTable,
        Ghost(left): Ghost<Seq<Change>>,
        Ghost(keys): Ghost<Seq<Change>>,
    ) -> (next: AntijoinEvalState)
        requires
            self.wf(),
            table.wf(),
            mass(table@) + mass(keys) <= isize::MAX,
            state.wf(),
            self.on_course(table@, left, keys, state@),
            !(state@ is Done),
        ensures
            next.wf(),
            self.on_course(table@, left, keys, next@),
            Self::shrinks(self.remaining(table@, state@), self.remaining(table@, next@)),
    {
        let ghost before = state@;
        let request = self.request(&state);
        let answer = self.answer(request, table);
        proof {
            self.lemma_step(table@, left, keys, before, answer@);
            self.lemma_answer_fits(table@, left, keys, before, answer@);
        }
        self.process_state(state, answer)
    }

    /// Takes an evaluation to its end against the state.
    fn run(
        &self,
        state: AntijoinEvalState,
        table: &StateTable,
        Ghost(left): Ghost<Seq<Change>>,
        Ghost(keys): Ghost<Seq<Change>>,
    ) -> (output: Delta)
        requires
            self.wf(),
            table.wf(),
            mass(table@) + mass(keys) <= isize::MAX,
            state.wf(),
            self.on_course(table@, left, keys, state@),
        ensures
            output@ == self.r_term(table@, keys) + self.l_term(table@, left, keys),
    {
        let mut state = state;
        loop
            invariant
                self.wf(),
                table.wf(),
                mass(table@) + mass(keys) <= isize::MAX,
                state.wf(),
                self.on_course(table@, left, keys, state@),
            decreases
                    self.remaining(table@, state@).0,
                    self.remaining(table@, state@).1,
                    self.remaining(table@, state@).2,
                    self.remaining(table@, state@).3,
        {
            if let AntijoinEvalState::Done { output } = state {
                return output;
            }
            state = self.step(state, table, Ghost(left), Ghost(keys));
        }
    }

    /// The change of what is shown when the inputs change, against the state as it stands.
    pub fn eval(&self, deltas: DeltaPair, table: &StateTable) -> (out: Delta)
        requires
            self.wf(),
            table.wf(),
            self.filed(table@),
            Self::fits(table@, deltas.left@, deltas.right@),
        ensures
            out@ == self.output(table@, deltas.left@, deltas.right@),
            forall|p: RowView| #[trigger]
                weight(out@, p) == self.output_weight(table@, deltas.left@, deltas.right@, p),
    {
        let ghost left = deltas.left@;
        let ghost right = deltas.right@;
        let ghost entries = table@;
        proof {
            lemma_mass_nonneg(entries);
            lemma_mass_nonneg(left);
            lemma_mass_nonneg(right);
        }
        let state = self.begin(deltas);
        let ghost left2 = state@->Right_left;
        let ghost keys = state@->Right_keys;
        assert(keys.take(0) =~= Seq::<Change>::empty());
        let output = self.run(state, table, Ghost(left2), Ghost(keys));
        proof {
            assert forall|p: RowView| #[trigger]
                weight(output@, p) == self.output_weight(entries, left, right, p) by {
                self.lemma_output(entries, left2, right, keys, p);
                self.lemma_output_of_equivalent(entries, left, right, left2, right, p);
            }
        }
        output
    }

    proof fn lemma_left_rows_weight(&self, entries: Seq<(Address, int)>, row: RowView)
        requires
            self.filed(entries),
        ensures
            weight(self.left_rows(entries), row) == weight(
                entries,
                Address {
                    storage_id: self.l_index(),
                    key: self.left_key(row),
                    row: Some(row),
                },
            ),
        decreases entries.len(),
    {
        if entries.len() > 0 {
            let front = entries.drop_last();
            assert forall|i: int|
                0 <= i < front.len() && (#[trigger] front[i]).0.storage_id == self.l_index()
                    && front[i].0.row is Some implies front[i].0.key == self.left_key(
                front[i].0.row->Some_0,
            ) by {
                assert(front[i] == entries[i]);
            }
            self.lemma_left_rows_weight(front, row);
            let (a, w) = entries.last();
            assert(entries[entries.len() - 1] == (a, w));
            if a.storage_id == self.l_index() && a.row is Some {
                lemma_weight_push(self.left_rows(front), (a.row->Some_0, w), row);
            }
        }
    }

    /// Once the state has taken in a change, it shows what it showed before and the output.
    proof fn lemma_integral(
        &self,
        before: Seq<(Address, int)>,
        after: Seq<(Address, int)>,
        left: Seq<Change>,
        right: Seq<Change>,
    )
        requires
            self.wf(),
            self.filed(before),
            normal(after),
            forall|a: Address| #[trigger]
                weight(after, a) == weight(before, a) + self.state_change(left, right, a),
        ensures
            self.filed(after),
            forall|p: RowView| #[trigger]
                self.integral(after, p) == self.integral(before, p) + self.output_weight(
                    before,
                    left,
                    right,
                    p,
                ),
    {
        assert(self.l_index() != self.r_count());
        assert forall|i: int|
            0 <= i < after.len() && (#[trigger] after[i]).0.storage_id == self.l_index()
                && after[i].0.row is Some implies after[i].0.key == self.left_key(
            after[i].0.row->Some_0,
        ) by {
            let a = after[i].0;
            lemma_weight_distinct(after, i);
            if a.key != self.left_key(a.row->Some_0) {
                assert forall|j: int| 0 <= j < before.len() implies (#[trigger] before[j]).0
                    != a by {}
                lemma_weight_absent(before, a);
                assert(weight(after, a) == weight(before, a) + self.state_change(left, right, a));
            }
        }
        let rows = self.left_rows(before) + left;
        assert forall|row: RowView| #[trigger] weight(self.left_rows(after), row) == weight(
            rows,
            row,
        ) by {
            self.lemma_left_rows_weight(after, row);
            self.lemma_left_rows_weight(before, row);
            lemma_weight_concat(self.left_rows(before), left, row);
        }
        assert forall|k: Seq<Datum>| #[trigger] self.matched_pre(after)(k) == self.matched_post(
            before,
            right,
        )(k) by {
            let a = Address { storage_id: self.r_count(), key: k, row: None };
            assert(weight(after, a) == weight(before, a) + self.state_change(left, right, a));
        }
        assert(self.matched_pre(after) =~= self.matched_post(before, right));
        assert forall|p: RowView| #[trigger]
            self.integral(after, p) == self.integral(before, p) + self.output_weight(
                before,
                left,
                right,
                p,
            ) by {
            let pred = self.shows(self.matched_post(before, right), p);
            law_sums_depend_on_weights_alone(self.left_rows(after), rows, pred);
            lemma_sum_where_concat(self.left_rows(before), left, pred);
        }
    }

    /// Lists the writes that take a change of the inputs into the state: the counts first, then
    /// the left rows.
    pub fn writes(&self, deltas: &DeltaPair) -> (r: Vec<StateWrite>)
        requires
            self.wf(),
            mass(deltas.right@) <= isize::MAX,
        ensures
            forall|a: Address| #[trigger]
                weight(writes_view(r@), a) == self.state_change(deltas.left@, deltas.right@, a),
            mass(writes_view(r@)) <= mass(deltas.left@) + mass(deltas.right@),
            forall|i: int, j: int|
                0 <= i < j < r@.len() && (#[trigger] r@[i]).row is Some ==> (#[trigger] r@[j]).row
                    is Some,
    {
        let ghost left = deltas.left@;
        let ghost right = deltas.right@;
        let key_deltas = self.compute_key_deltas(&deltas.right);
        let ghost keys = key_deltas@;
        let r_count_id: i64 = self.r_count_storage_id();
        let l_index_id: i64 = self.l_index_storage_id();
        let mut out: Vec<StateWrite> = Vec::new();
        let mut idx: usize = 0;
        assert(keys.take(0) =~= Seq::<Change>::empty());
        assert(writes_view(out@) =~= Seq::<(Address, int)>::empty());
        while idx < key_deltas.changes.len()
            invariant
                idx <= key_deltas.changes.len(),
                keys == key_deltas@,
                forall|i: int| 0 <= i < keys.len() ==> (#[trigger] keys[i]).0.rowid == 0,
                r_count_id == self.r_count(),
                mass(writes_view(out@)) <= mass(keys.take(idx as int)),
                forall|i: int| 0 <= i < out@.len() ==> (#[trigger] out@[i]).row is None,
                forall|a: Address| #[trigger]
                    weight(writes_view(out@), a) == (if a.storage_id == self.r_count() && a.row
                        is None {
                        weight(keys.take(idx as int), key_row(a.key))
                    } else {
                        0
                    }),
            decreases key_deltas.changes.len() - idx,
        {
            let key = &key_deltas.changes[idx].0;
            let d: isize = key_deltas.changes[idx].1;
            let ghost now = writes_view(out@);
            let write = StateWrite {
                storage_id: r_count_id,
                key: copy_values(&key.values),
                row: None,
                weight: d,
            };
            let ghost added = (write.address(), d as int);
            out.push(write);
            proof {
                assert(keys[idx as int] == (key@, d as int));
                assert(keys.take(idx + 1) =~= keys.take(idx as int).push((key@, d as int)));
                assert(writes_view(out@) =~= now.push(added));
                lemma_mass_push(now, added);
                lemma_mass_push(keys.take(idx as int), (key@, d as int));
                assert forall|a: Address| #[trigger]
                    weight(writes_view(out@), a) == (if a.storage_id == self.r_count() && a.row
                        is None {
                        weight(keys.take(idx + 1), key_row(a.key))
                    } else {
                        0
                    }) by {
                    lemma_weight_push(now, added, a);
                    lemma_weight_push(keys.take(idx as int), (key@, d as int), key_row(a.key));
                    assert(weight(now, a) == (if a.storage_id == self.r_count() && a.row is None {
                        weight(keys.take(idx as int), key_row(a.key))
                    } else {
                        0
                    }));
                    assert(key@ == key_row(key@.values));
                }
            }
            idx += 1;
        }
        assert(keys.take(idx as int) =~= keys);
        let ghost counted = writes_view(out@);
        let ghost n = out@.len();
        let mut l_idx: usize = 0;
        assert(left.take(0) =~= Seq::<Change>::empty());
        while l_idx < deltas.left.changes.len()
            invariant
                l_idx <= deltas.left.changes.len(),
                left == deltas.left@,
                l_index_id == self.l_index(),
                n <= out@.len(),
                forall|i: int| 0 <= i < n ==> (#[trigger] out@[i]).row is None,
                forall|i: int| n <= i < out@.len() ==> (#[trigger] out@[i]).row is Some,
                mass(writes_view(out@)) <= mass(counted) + mass(left.take(l_idx as int)),
                forall|a: Address| #[trigger]
                    weight(writes_view(out@), a) == weight(counted, a) + (if a.storage_id
                        == self.l_index() && a.row is Some && a.key == self.left_key(
                        a.row->Some_0,
                    ) {
                        weight(left.take(l_idx as int), a.row->Some_0)
                    } else {
                        0
                    }),
            decreases deltas.left.changes.len() - l_idx,
        {
            let l_row = deltas.left.changes[l_idx].0.clone();
            let w: isize = deltas.left.changes[l_idx].1;
            let ghost now = writes_view(out@);
            let ghost row = l_row@;
            let l_key = Self::extract_key(&l_row.values, &self.left_key_indices);
            let write = StateWrite {
                storage_id: l_index_id,
                key: l_key.values,
                row: Some(l_row),
                weight: w,
            };
            let ghost added = (write.address(), w as int);
            out.push(write);
            proof {
                assert(left[l_idx as int] == (row, w as int));
                assert(left.take(l_idx + 1) =~= left.take(l_idx as int).push((row, w as int)));
                assert(writes_view(out@) =~= now.push(added));
                lemma_mass_push(now, added);
                lemma_mass_push(left.take(l_idx as int), (row, w as int));
                assert forall|a: Address| #[trigger]
                    weight(writes_view(out@), a) == weight(counted, a) + (if a.storage_id
                        == self.l_index() && a.row is Some && a.key == self.left_key(
                        a.row->Some_0,
                    ) {
                        weight(left.take(l_idx + 1), a.row->Some_0)
                    } else {
                        0
                    }) by {
                    lemma_weight_push(now, added, a);
                    assert(weight(now, a) == weight(counted, a) + (if a.storage_id
                        == self.l_index() && a.row is Some && a.key == self.left_key(
                        a.row->Some_0,
                    ) {
                        weight(left.take(l_idx as int), a.row->Some_0)
                    } else {
                        0
                    }));
                    if a.row is Some {
                        lemma_weight_push(
                            left.take(l_idx as int),
                            (row, w as int),
                            a.row->Some_0,
                        );
                    }
                }
            }
            l_idx += 1;
        }
        assert(left.take(l_idx as int) =~= left);
        proof {
            assert forall|a: Address| #[trigger]
                weight(writes_view(out@), a) == self.state_change(left, right, a) by {
                assert(weight(counted, a) == (if a.storage_id == self.r_count() && a.row is None {
                    weight(keys, key_row(a.key))
                } else {
                    0
                }));
                assert(weight(keys, key_row(a.key)) == weight(
                    self.key_changes(right),
                    key_row(a.key),
                ));
                assert(self.l_index() != self.r_count());
            }
        }
        out
    }

    /// Takes a change of the inputs into the state and gives the change of what is shown.
    ///
    /// The output is formed first, against the state as it was.
    pub fn commit(&self, deltas: DeltaPair, table: &mut StateTable) -> (out: Delta)
        requires
            self.wf(),
            old(table).wf(),
            self.filed(old(table)@),
            Self::fits(old(table)@, deltas.left@, deltas.right@),
        ensures
            final(table).wf(),
            self.filed(final(table)@),
            mass(final(table)@) <= mass(old(table)@) + mass(deltas.left@) + mass(deltas.right@),
            forall|a: Address| #[trigger]
                weight(final(table)@, a) == weight(old(table)@, a) + self.state_change(
                    deltas.left@,
                    deltas.right@,
                    a,
                ),
            out@ == self.output(old(table)@, deltas.left@, deltas.right@),
            self.committed(
                old(table)@,
                (Committed {
                    left: deltas.left@,
                    right: deltas.right@,
                    out: out@,
                    after: final(table)@,
                }),
            ),
            forall|p: RowView| #[trigger]
                weight(out@, p) == self.output_weight(
                    old(table)@,
                    deltas.left@,
                    deltas.right@,
                    p,
                ),
            forall|p: RowView| #[trigger]
                weight(out@, p) == self.integral(final(table)@, p) - self.integral(
                    old(table)@,
                    p,
                ),
    {
        let ghost before = table@;
        let ghost left = deltas.left@;
        let ghost right = deltas.right@;
        proof {
            lemma_mass_nonneg(before);
            lemma_mass_nonneg(left);
            lemma_mass_nonneg(right);
        }
        let output = self.eval(deltas.clone(), table);
        let writes = self.writes(&deltas);
        let ghost all = writes_view(writes@);
        let mut i: usize = 0;
        assert(all.take(0) =~= Seq::<(Address, int)>::empty());
        while i < writes.len()
            invariant
                i <= writes.len(),
                all == writes_view(writes@),
                mass(all) <= mass(left) + mass(right),
                mass(before) + mass(left) + mass(right) <= isize::MAX,
                table.wf(),
                mass(table@) <= mass(before) + mass(all.take(i as int)),
                forall|a: Address| #[trigger]
                    weight(table@, a) == weight(before, a) + weight(all.take(i as int), a),
            decreases writes.len() - i,
        {
            let write = &writes[i];
            let ghost now = table@;
            let ghost added = (write.address(), write.weight as int);
            proof {
                assert(all[i as int] == added);
                assert(all.take(i + 1) =~= all.take(i as int).push(added));
                lemma_mass_push(all.take(i as int), added);
                lemma_mass_prefix(all, i + 1);
            }
            table.write_row(write.storage_id, &write.key, &write.row, write.weight);
            proof {
                assert forall|a: Address| #[trigger]
                    weight(table@, a) == weight(before, a) + weight(all.take(i + 1), a) by {
                    lemma_weight_push(all.take(i as int), added, a);
                    assert(weight(now, a) == weight(before, a) + weight(all.take(i as int), a));
                }
            }
            i += 1;
        }
        assert(all.take(i as int) =~= all);
        proof {
            assert forall|a: Address| #[trigger]
                weight(table@, a) == weight(before, a) + self.state_change(left, right, a) by {
                assert(weight(all, a) == self.state_change(left, right, a));
            }
            self.lemma_integral(before, table@, left, right);
            assert forall|p: RowView| #[trigger]
                weight(output@, p) == self.integral(table@, p) - self.integral(before, p) by {
                assert(self.integral(table@, p) == self.integral(before, p)
                    + self.output_weight(before, left, right, p));
            }
        }
        output
    }
}

/// An evaluation that is told what the state says stays on course.
pub proof fn law_true_answers_keep_an_evaluation_on_course(
    op: AntijoinOperator,
    entries: Seq<(Address, int)>,
    left: Seq<Change>,
    keys: Seq<Change>,
    v: EvalView,
    answer: AnswerView,
)
    requires
        op.on_course(entries, left, keys, v),
        op.answers(entries, op.requested(v), answer),
    ensures
        op.on_course(entries, left, keys, op.stepped(v, answer)),
{
    if !(v is Done) {
        op.lemma_step(entries, left, keys, v, answer);
    }
}

/// An evaluation begins on course, and one that has ended on course has put out the change of what
/// is shown.
pub proof fn law_an_evaluation_on_course_ends_right(
    op: AntijoinOperator,
    entries: Seq<(Address, int)>,
    left: Seq<Change>,
    right: Seq<Change>,
    begun: EvalView,
    ended: EvalView,
    p: RowView,
)
    requires
        op.filed(entries),
        op.begun(begun, left, right),
        ended is Done,
    ensures
        op.on_course(entries, begun->Right_left, begun->Right_keys, begun),
        op.on_course(entries, begun->Right_left, begun->Right_keys, ended) ==> weight(
            ended->Done_output,
            p,
        ) == op.output_weight(entries, left, right, p),
{
    let left2 = begun->Right_left;
    let keys = begun->Right_keys;
    assert(keys.take(0) =~= Seq::<Change>::empty());
    op.lemma_output(entries, left2, right, keys, p);
    op.lemma_output_of_equivalent(entries, left, right, left2, right, p);
}

/// Puts a key in its place in the order of the digests.
fn place_key(affected_keys: &mut Vec<AffectedKey>, key: AffectedKey)
    requires
        key.c_pre is None,
        forall|j: int| 0 <= j < old(affected_keys)@.len() ==> (
        #[trigger] old(affected_keys)@[j]).c_pre is None,
    ensures
        affected(final(affected_keys)@) == placed(
            affected(old(affected_keys)@),
            (key.join_key@, key.delta_count as int),
        ),
        forall|j: int| 0 <= j < final(affected_keys)@.len() ==> (
        #[trigger] final(affected_keys)@[j]).c_pre is None,
{
    let ghost all = affected(affected_keys@);
    let ghost before = affected_keys@;
    let ghost c = (key.join_key@, key.delta_count as int);
    let own: i64 = digest(&key.join_key.values);
    let mut p: usize = affected_keys.len();
    proof {
        assert(all.take(p as int) =~= all);
        assert(placed(all, c) + all.skip(p as int) =~= placed(all, c));
    }
    while p > 0 && digest(&affected_keys[p - 1].join_key.values) > own
        invariant
            p <= affected_keys@.len(),
            affected_keys@ == before,
            all == affected(affected_keys@),
            c == (key.join_key@, key.delta_count as int),
            own == fingerprint(key.join_key@.values),
            placed(all, c) == placed(all.take(p as int), c) + all.skip(p as int),
        decreases p,
    {
        proof {
            assert(all[p - 1].0 == affected_keys@[p - 1].join_key@);
            assert(all.take(p as int).drop_last() =~= all.take(p - 1));
            assert(all.take(p as int).last() == all[p - 1]);
            assert(placed(all.take(p as int), c) + all.skip(p as int) =~= placed(
                all.take(p - 1),
                c,
            ) + all.skip(p - 1));
        }
        p -= 1;
    }
    proof {
        if p > 0 {
            assert(all[p - 1].0 == affected_keys@[p - 1].join_key@);
            assert(all.take(p as int).last() == all[p - 1]);
            assert(placed(all.take(p as int), c) =~= all.take(p as int).push(c));
        } else {
            assert(placed(all.take(0), c) =~= all.take(0).push(c));
        }
    }
    affected_keys.insert(p, key);
    proof {
        assert(affected_keys@ =~= before.insert(p as int, key));
        assert(affected(affected_keys@) =~= placed(all, c));
        assert forall|j: int| 0 <= j < affected_keys@.len() implies (
        #[trigger] affected_keys@[j]).c_pre is None by {
            if j < p {
                assert(affected_keys@[j] == before[j]);
            } else if j > p {
                assert(affected_keys@[j] == before[j - 1]);
            }
        }
    }
}

/// The total weight of a row in a delta.
fn weight_of(delta: &Delta, row: &HashableRow) -> (r: isize)
    requires
        mass(delta@) <= isize::MAX,
    ensures
        r == weight(delta@, row@),
{
    let mut total: isize = 0;
    let mut i: usize = 0;
    let ghost all = delta@;
    assert(all.take(0) =~= Seq::<Change>::empty());
    while i < delta.changes.len()
        invariant
            i <= delta.changes.len(),
            all == delta@,
            mass(all) <= isize::MAX,
            total == weight(all.take(i as int), row@),
        decreases delta.changes.len() - i,
    {
        proof {
            assert(all.take(i + 1).drop_last() =~= all.take(i as int));
            assert(all.take(i + 1).last() == all[i as int]);
            lemma_mass_prefix(all, i + 1);
            lemma_weight_within_mass(all.take(i + 1), row@);
        }
        if delta.changes[i].0.same(row) {
            total = total + delta.changes[i].1;
        }
        i += 1;
    }
    assert(all.take(i as int) =~= all);
    total
}

/// A change on the right alone retracts as much as it inserts: whatever is added to one tag of
/// some left values is taken from the other.
pub proof fn law_flips_are_balanced(
    op: AntijoinOperator,
    entries: Seq<(Address, int)>,
    right: Seq<Change>,
    values: Seq<Datum>,
)
    requires
        op.mode is Indicator,
    ensures
        op.output_weight(entries, Seq::empty(), right, derived_row(values.push(int_datum(0))))
            + op.output_weight(
            entries,
            Seq::empty(),
            right,
            derived_row(values.push(int_datum(1))),
        ) == 0,
{
    let rows = op.left_rows(entries);
    lemma_tags_partition(op, rows, op.matched_post(entries, right), values);
    lemma_tags_partition(op, rows, op.matched_pre(entries), values);
}

/// Every row with some values is shown under exactly one of the two tags.
proof fn lemma_tags_partition(
    op: AntijoinOperator,
    rows: Seq<Change>,
    matched: spec_fn(Seq<Datum>) -> bool,
    values: Seq<Datum>,
)
    requires
        op.mode is Indicator,
    ensures
        op.shown(rows, matched, derived_row(values.push(int_datum(0)))) + op.shown(
            rows,
            matched,
            derived_row(values.push(int_datum(1))),
        ) == sum_where(rows, |l: RowView| l.values == values),
    decreases rows.len(),
{
    if rows.len() > 0 {
        lemma_tags_partition(op, rows.drop_last(), matched, values);
        let l = rows.last().0;
        let tag = if matched(op.left_key(l)) {
            int_datum(1)
        } else {
            int_datum(0)
        };
        let p0 = derived_row(values.push(int_datum(0)));
        let p1 = derived_row(values.push(int_datum(1)));
        assert(p0.values.last() == int_datum(0));
        assert(p1.values.last() == int_datum(1));
        let shown = derived_row(l.values.push(tag));
        assert(shown.values.last() == tag);
        assert(shown.values.drop_last() =~= l.values);
        assert(p0.values.drop_last() =~= values);
        assert(p1.values.drop_last() =~= values);
    }
}

/// Where no count crosses zero, a change on the right shows nothing.
pub proof fn law_only_crossings_show(
    op: AntijoinOperator,
    entries: Seq<(Address, int)>,
    right: Seq<Change>,
    p: RowView,
)
    requires
        forall|k: Seq<Datum>| #[trigger]
            op.matched_pre(entries)(k) == op.matched_post(entries, right)(k),
    ensures
        op.output_weight(entries, Seq::empty(), right, p) == 0,
{
    assert(op.matched_pre(entries) =~= op.matched_post(entries, right));
}

/// A key that holds NULL is never matched: right rows with such a key are not counted.
pub proof fn law_null_keys_never_match(
    op: AntijoinOperator,
    entries: Seq<(Address, int)>,
    right: Seq<Change>,
    key: Seq<Datum>,
)
    requires
        has_null(key),
        !op.matched_pre(entries)(key),
    ensures
        !op.matched_post(entries, right)(key),
{
    lemma_null_keys_uncounted(op, right, key);
}

proof fn lemma_null_keys_uncounted(op: AntijoinOperator, right: Seq<Change>, key: Seq<Datum>)
    requires
        has_null(key),
    ensures
        weight(op.key_changes(right), key_row(key)) == 0,
    decreases right.len(),
{
    if right.len() > 0 {
        lemma_null_keys_uncounted(op, right.drop_last(), key);
        let (row, w) = right.last();
        if !has_null(op.right_key(row)) {
            lemma_weight_push(
                op.key_changes(right.drop_last()),
                (key_row(op.right_key(row)), w),
                key_row(key),
            );
            assert(key_row(op.right_key(row)).values != key_row(key).values);
        }
    }
}

// What single changes put out.

proof fn lemma_one_added_up(c: Change)
    requires
        c.1 != 0,
    ensures
        added_up(seq![c]) == seq![c],
{
    reveal_with_fuel(rows_of, 2);
    reveal_with_fuel(totals, 2);
    reveal_with_fuel(weight, 2);
    let s = seq![c];
    assert(s.drop_last() =~= Seq::<Change>::empty());
    assert(rows_of(s) =~= seq![c.0]);
    assert(seq![c.0].drop_last() =~= Seq::<RowView>::empty());
    assert(weight(s, c.0) == c.1);
    assert(added_up(s) =~= s);
}

proof fn lemma_none_added_up()
    ensures
        added_up(Seq::<Change>::empty()) == Seq::<Change>::empty(),
{
}

/// One change on the right whose key has one left row under it, and whose count it takes across zero,
/// puts out that row taken back as it was shown and shown as it is, and nothing more.
pub proof fn law_one_crossing_flips_one_row(
    op: AntijoinOperator,
    entries: Seq<(Address, int)>,
    r: Change,
    l: Change,
)
    requires
        r.1 != 0,
        l.1 != 0,
        !has_null(op.right_key(r.0)),
        rows_at(entries, op.l_index(), op.right_key(r.0)) == seq![l],
        (op.count(entries, op.right_key(r.0)) == 0) != (op.count(entries, op.right_key(r.0)) + r.1
            == 0),
    ensures
        ({
            let was = op.count(entries, op.right_key(r.0)) != 0;
            let out = op.output(entries, Seq::empty(), seq![r]);
            &&& out == op.emission(l.0, -l.1, was) + op.emission(l.0, l.1, !was)
            &&& op.mode matches EmitMode::NullPad { right_column_count } ==> out == seq![
                (
                    derived_row(
                        l.0.values + Seq::new(right_column_count as nat, |i: int| Datum::Null),
                    ),
                    if was {
                        l.1
                    } else {
                        -l.1
                    },
                ),
            ]
            &&& op.mode is Indicator ==> out == seq![
                (
                    derived_row(
                        l.0.values.push(
                            int_datum(
                                if was {
                                    1
                                } else {
                                    0
                                },
                            ),
                        ),
                    ),
                    -l.1,
                ),
                (
                    derived_row(
                        l.0.values.push(
                            int_datum(
                                if was {
                                    0
                                } else {
                                    1
                                },
                            ),
                        ),
                    ),
                    l.1,
                ),
            ]
        }),
{
    let right = seq![r];
    let key = op.right_key(r.0);
    let c = (key_row(key), r.1);
    lemma_one_added_up(r);
    lemma_none_added_up();
    assert(right.drop_last() =~= Seq::<Change>::empty());
    reveal_with_fuel(AntijoinOperator::key_changes, 2);
    assert(op.key_changes(right) =~= seq![c]);
    lemma_one_added_up(c);
    assert(seq![c].drop_last() =~= Seq::<Change>::empty());
    reveal_with_fuel(by_digest, 2);
    assert(op.keys_for(right) =~= seq![c]);
    let was = op.count(entries, key) != 0;
    reveal_with_fuel(AntijoinOperator::r_term, 2);
    reveal_with_fuel(AntijoinOperator::flips, 2);
    assert(seq![l].drop_last() =~= Seq::<Change>::empty());
    let e1 = op.emission(l.0, -l.1, was);
    let e2 = op.emission(l.0, l.1, !was);
    assert(op.flips(seq![l], was, !was) =~= e1 + e2);
    assert(op.r_term(entries, seq![c]) =~= e1 + e2);
    assert(op.l_term(entries, Seq::empty(), seq![c]) =~= Seq::<Change>::empty());
    let out = op.output(entries, Seq::empty(), right);
    assert(out =~= e1 + e2);
    match op.mode {
        EmitMode::NullPad { right_column_count } => {
            let p = derived_row(
                l.0.values + Seq::new(right_column_count as nat, |i: int| Datum::Null),
            );
            assert(out =~= seq![
                (
                    p,
                    if was {
                        l.1
                    } else {
                        -l.1
                    },
                ),
            ]);
        },
        EmitMode::Indicator => {
            let tag = |matched: bool|
                derived_row(
                    l.0.values.push(
                        int_datum(
                            if matched {
                                1
                            } else {
                                0
                            },
                        ),
                    ),
                );
            assert(out =~= seq![(tag(was), -l.1), (tag(!was), l.1)]);
        },
    }
}

proof fn lemma_null_right(op: AntijoinOperator, right: Seq<Change>)
    requires
        forall|i: int| 0 <= i < right.len() ==> has_null(op.right_key((#[trigger] right[i]).0)),
    ensures
        op.key_changes(right) == Seq::<Change>::empty(),
    decreases right.len(),
{
    if right.len() > 0 {
        let front = right.drop_last();
        assert forall|i: int| 0 <= i < front.len() implies has_null(
            op.right_key((#[trigger] front[i]).0),
        ) by {
            assert(front[i] == right[i]);
        }
        lemma_null_right(op, front);
        assert(has_null(op.right_key(right[right.len() - 1].0)));
    }
}

/// A left row whose key holds NULL is put out as unmatched, once, whatever the right rows are.
pub proof fn law_a_left_row_with_a_null_key_is_shown_unmatched(
    op: AntijoinOperator,
    entries: Seq<(Address, int)>,
    l: Change,
    right: Seq<Change>,
)
    requires
        l.1 != 0,
        has_null(op.left_key(l.0)),
        op.count(entries, op.left_key(l.0)) == 0,
    ensures
        op.output(entries, seq![l], right) == op.r_term(entries, op.keys_for(right)) + seq![
            (op.shown_row(l.0, false)->Some_0, l.1),
        ],
        (forall|i: int| 0 <= i < right.len() ==> has_null(op.right_key((#[trigger] right[i]).0)))
            ==> op.output(entries, seq![l], right) == seq![
            (op.shown_row(l.0, false)->Some_0, l.1),
        ],
{
    let key = op.left_key(l.0);
    let keys = op.keys_for(right);
    let summed = added_up(right);
    lemma_one_added_up(l);
    lemma_added_up(right);
    lemma_added_up(op.key_changes(summed));
    lemma_by_digest(added_up(op.key_changes(summed)));
    assert(weight(keys, key_row(key)) == 0) by {
        lemma_null_keys_uncounted(op, summed, key);
        assert(weight(keys, key_row(key)) == weight(
            added_up(op.key_changes(summed)),
            key_row(key),
        ));
        assert(weight(added_up(op.key_changes(summed)), key_row(key)) == weight(
            op.key_changes(summed),
            key_row(key),
        ));
    }
    assert(seq![l].drop_last() =~= Seq::<Change>::empty());
    reveal_with_fuel(AntijoinOperator::l_term, 2);
    let one = seq![(op.shown_row(l.0, false)->Some_0, l.1)];
    assert(op.l_term(entries, seq![l], keys) =~= one);
    if forall|i: int| 0 <= i < right.len() ==> has_null(op.right_key((#[trigger] right[i]).0)) {
        assert forall|i: int| 0 <= i < summed.len() implies has_null(
            op.right_key((#[trigger] summed[i]).0),
        ) by {
            if forall|j: int| 0 <= j < right.len() ==> (#[trigger] right[j]).0 != summed[i].0 {
                lemma_weight_absent(right, summed[i].0);
                lemma_weight_distinct(summed, i);
                assert(weight(summed, summed[i].0) == weight(right, summed[i].0));
            } else {
                let j = choose|j: int| 0 <= j < right.len() && (#[trigger] right[j]).0
                    == summed[i].0;
                assert(has_null(op.right_key(right[j].0)));
            }
        }
        lemma_null_right(op, summed);
        lemma_none_added_up();
        assert(keys =~= Seq::<Change>::empty());
        assert(op.output(entries, seq![l], right) =~= one);
    }
}

// What commits add up to.

proof fn lemma_state_changes_add_up(
    op: AntijoinOperator,
    l1: Seq<Change>,
    r1: Seq<Change>,
    l2: Seq<Change>,
    r2: Seq<Change>,
    a: Address,
)
    ensures
        op.state_change(l1 + l2, r1 + r2, a) == op.state_change(l1, r1, a) + op.state_change(
            l2,
            r2,
            a,
        ),
{
    let k = key_row(a.key);
    op.lemma_key_changes_sum(r1, k);
    op.lemma_key_changes_sum(r2, k);
    op.lemma_key_changes_sum(r1 + r2, k);
    lemma_sum_where_concat(r1, r2, op.carries(k));
    if a.row is Some {
        lemma_weight_concat(l1, l2, a.row->Some_0);
    }
}

proof fn lemma_history(op: AntijoinOperator, history: Seq<Committed>)
    requires
        op.wf(),
        op.is_history(history),
    ensures
        normal(state_after(history)),
        op.filed(state_after(history)),
        forall|a: Address| #[trigger]
            weight(state_after(history), a) == op.state_change(
                all_left(history),
                all_right(history),
                a,
            ),
        forall|p: RowView| #[trigger]
            weight(all_out(history), p) == op.integral(state_after(history), p),
    decreases history.len(),
{
    let after = state_after(history);
    if history.len() == 0 {
        assert forall|a: Address| #[trigger] weight(after, a) == op.state_change(
            all_left(history),
            all_right(history),
            a,
        ) by {}
        assert forall|p: RowView| #[trigger] weight(all_out(history), p) == op.integral(
            after,
            p,
        ) by {}
    } else {
        let front = history.drop_last();
        let c = history.last();
        let before = state_after(front);
        lemma_history(op, front);
        op.lemma_integral(before, after, c.left, c.right);
        assert forall|a: Address| #[trigger] weight(after, a) == op.state_change(
            all_left(history),
            all_right(history),
            a,
        ) by {
            lemma_state_changes_add_up(
                op,
                all_left(front),
                all_right(front),
                c.left,
                c.right,
                a,
            );
            assert(weight(after, a) == weight(before, a) + op.state_change(c.left, c.right, a));
            assert(weight(before, a) == op.state_change(all_left(front), all_right(front), a));
        }
        assert forall|p: RowView| #[trigger] weight(all_out(history), p) == op.integral(
            after,
            p,
        ) by {
            lemma_weight_concat(all_out(front), c.out, p);
            assert(weight(all_out(front), p) == op.integral(before, p));
            assert(weight(c.out, p) == op.output_weight(before, c.left, c.right, p));
            assert(op.integral(after, p) == op.integral(before, p) + op.output_weight(
                before,
                c.left,
                c.right,
                p,
            ));
        }
    }
}

/// What commits put out adds up to what the rows as they stand show: every left row under whether its
/// key is carried by a right row. In `EmitMode::NullPad` these are the left rows that no right row
/// matches, padded with NULLs, which is the unmatched half of a LEFT JOIN. Keys that hold NULL match
/// nothing.
pub proof fn law_outputs_add_up_to_the_unmatched_half(
    op: AntijoinOperator,
    history: Seq<Committed>,
    p: RowView,
)
    requires
        op.wf(),
        op.is_history(history),
        forall|r: RowView| #[trigger] weight(all_right(history), r) >= 0,
    ensures
        weight(all_out(history), p) == op.shown(
            all_left(history),
            op.carried_by(all_right(history)),
            p,
        ),
        op.mode matches EmitMode::NullPad { right_column_count } ==> weight(all_out(history), p)
            == sum_where(
            all_left(history),
            |l: RowView|
                !op.carried_by(all_right(history))(op.left_key(l)) && p == derived_row(
                    l.values + Seq::new(right_column_count as nat, |i: int| Datum::Null),
                ),
        ),
{
    lemma_history(op, history);
    let entries = state_after(history);
    let left = all_left(history);
    let right = all_right(history);
    assert(op.l_index() != op.r_count());
    assert forall|row: RowView| #[trigger] weight(op.left_rows(entries), row) == weight(
        left,
        row,
    ) by {
        op.lemma_left_rows_weight(entries, row);
        let a = Address {
            storage_id: op.l_index(),
            key: op.left_key(row),
            row: Some(row),
        };
        assert(weight(entries, a) == op.state_change(left, right, a));
    }
    assert forall|k: Seq<Datum>| #[trigger] op.matched_pre(entries)(k) == op.carried_by(right)(
        k,
    ) by {
        let a = Address { storage_id: op.r_count(), key: k, row: None };
        assert(weight(entries, a) == op.state_change(left, right, a));
        op.lemma_key_changes_sum(right, key_row(k));
        let pred = op.carries(key_row(k));
        lemma_sums_of_positive_weights(right, pred);
        if sum_where(right, pred) != 0 {
            let r = choose|r: RowView| #[trigger] weight(right, r) != 0 && pred(r);
            assert(weight(right, r) != 0 && op.right_key(r) == key_row(k).values);
        } else if op.carried_by(right)(k) {
            let r = choose|r: RowView| #[trigger] weight(right, r) != 0 && op.right_key(r) == k;
            assert(weight(right, r) != 0 && pred(r));
        }
    }
    assert(op.matched_pre(entries) =~= op.carried_by(right));
    law_sums_depend_on_weights_alone(
        op.left_rows(entries),
        left,
        op.shows(op.carried_by(right), p),
    );
    assert(weight(all_out(history), p) == op.integral(entries, p));
    if let EmitMode::NullPad { right_column_count } = op.mode {
        assert(op.shows(op.carried_by(right), p) =~= |l: RowView|
            !op.carried_by(right)(op.left_key(l)) && p == derived_row(
                l.values + Seq::new(right_column_count as nat, |i: int| Datum::Null),
            ));
    }
}

/// A left row is matched exactly if some right row of positive weight agrees with it in every pair of
/// key columns, none of which is NULL. What commits put out adds up to what the left rows show under
/// that: unmatched ones padded with NULLs, or every one with a trailing 1 where it is matched and 0
/// where it is not.
pub proof fn law_left_rows_are_matched_by_rows_that_agree_in_every_key_column(
    op: AntijoinOperator,
    history: Seq<Committed>,
    p: RowView,
)
    requires
        op.wf(),
        op.is_history(history),
        forall|r: RowView| #[trigger] weight(all_right(history), r) >= 0,
    ensures
        ({
            let lk = op.left_key_indices@;
            let rk = op.right_key_indices@;
            let matched = |l: RowView|
                lk.len() == rk.len() && exists|r: RowView|
                    #[trigger] weight(all_right(history), r) > 0 && forall|i: int|
                        0 <= i < lk.len() ==> {
                            &&& #[trigger] lk[i] < l.values.len()
                            &&& rk[i] < r.values.len()
                            &&& l.values[lk[i] as int] == r.values[rk[i] as int]
                            &&& l.values[lk[i] as int] != Datum::Null
                        };
            weight(all_out(history), p) == sum_where(
                all_left(history),
                |l: RowView|
                    p.rowid == fingerprint(p.values) && (match op.mode {
                        EmitMode::NullPad { right_column_count } => !matched(l) && p.values
                            == l.values + Seq::new(right_column_count as nat, |i: int| Datum::Null),
                        EmitMode::Indicator => p.values == l.values.push(
                            Datum::Numeric(
                                NumericView::Integer(
                                    if matched(l) {
                                        1
                                    } else {
                                        0
                                    },
                                ),
                            ),
                        ),
                    }),
            )
        }),
{
    law_outputs_add_up_to_the_unmatched_half(op, history, p);
    let right = all_right(history);
    let lk = op.left_key_indices@;
    let rk = op.right_key_indices@;
    let matched = |l: RowView|
        lk.len() == rk.len() && exists|r: RowView|
            #[trigger] weight(right, r) > 0 && forall|i: int|
                0 <= i < lk.len() ==> {
                    &&& #[trigger] lk[i] < l.values.len()
                    &&& rk[i] < r.values.len()
                    &&& l.values[lk[i] as int] == r.values[rk[i] as int]
                    &&& l.values[lk[i] as int] != Datum::Null
                };
    let said = |l: RowView|
        p.rowid == fingerprint(p.values) && (match op.mode {
            EmitMode::NullPad { right_column_count } => !matched(l) && p.values == l.values
                + Seq::new(right_column_count as nat, |i: int| Datum::Null),
            EmitMode::Indicator => p.values == l.values.push(
                Datum::Numeric(
                    NumericView::Integer(
                        if matched(l) {
                            1
                        } else {
                            0
                        },
                    ),
                ),
            ),
        });
    let shows = op.shows(op.carried_by(right), p);
    assert forall|l: RowView| #[trigger] shows(l) == said(l) by {
        let key = op.left_key(l);
        if op.carried_by(right)(key) {
            let r = choose|r: RowView| #[trigger] weight(right, r) != 0 && op.right_key(r) == key;
            assert(weight(right, r) > 0);
            assert(op.right_key(r).len() == rk.len());
            assert forall|i: int| 0 <= i < lk.len() implies {
                &&& #[trigger] lk[i] < l.values.len()
                &&& rk[i] < r.values.len()
                &&& l.values[lk[i] as int] == r.values[rk[i] as int]
                &&& l.values[lk[i] as int] != Datum::Null
            } by {
                assert(key[i] != Datum::Null);
                assert(op.right_key(r)[i] == key[i]);
            }
            assert(matched(l));
        } else if matched(l) {
            let r = choose|r: RowView|
                #[trigger] weight(right, r) > 0 && forall|i: int|
                    0 <= i < lk.len() ==> {
                        &&& #[trigger] lk[i] < l.values.len()
                        &&& rk[i] < r.values.len()
                        &&& l.values[lk[i] as int] == r.values[rk[i] as int]
                        &&& l.values[lk[i] as int] != Datum::Null
                    };
            assert forall|i: int| 0 <= i < key.len() implies #[trigger] key[i] != Datum::Null
                && op.right_key(r)[i] == key[i] by {
                assert(lk[i] < l.values.len());
            }
            assert(op.right_key(r) =~= key);
            assert(weight(right, r) != 0 && op.right_key(r) == key);
            assert(!has_null(key));
        }
        assert(op.carried_by(right)(key) == matched(l));
    }
    assert(shows =~= said);
}

} // verus!
