//! Changes by the name of the table they are made to.

use vstd::prelude::*;

use crate::names::NameIndex;
use crate::zset::{Change, Delta};

verus! {

/// Changes to several tables.
#[derive(Debug)]
pub struct DeltaSet {
    /// The tables, each once, with their changes.
    entries: Vec<(String, Delta)>,
    /// The position of every table.
    index: NameIndex,
}

/// No changes.
pub open spec fn no_changes() -> Seq<Change> {
    Seq::empty()
}

/// The changes that a map gives a table, none where it gives it none.
pub open spec fn changes_of(map: Map<Seq<char>, Seq<Change>>, name: Seq<char>) -> Seq<Change> {
    if map.dom().contains(name) {
        map[name]
    } else {
        no_changes()
    }
}

/// What some pairs of a table and its changes hold; of two pairs for one table the later holds.
pub open spec fn pairs_map(pairs: Seq<(String, Delta)>) -> Map<Seq<char>, Seq<Change>>
    decreases pairs.len(),
{
    if pairs.len() == 0 {
        Map::empty()
    } else {
        pairs_map(pairs.drop_last()).insert(pairs.last().0@, pairs.last().1@)
    }
}

impl DeltaSet {
    /// Every table is there once and can be found by its name.
    pub closed spec fn wf(&self) -> bool {
        &&& forall|n: Seq<char>| #[trigger]
            self.index@.dom().contains(n) ==> self.index@[n] < self.entries@.len()
                && self.entries@[self.index@[n] as int].0@ == n
        &&& forall|i: int|
            0 <= i < self.entries@.len() ==> self.index@.dom().contains(
                (#[trigger] self.entries@[i]).0@,
            ) && self.index@[self.entries@[i].0@] == i
    }

    pub closed spec fn map(&self) -> Map<Seq<char>, Seq<Change>> {
        Map::new(
            |n: Seq<char>| self.index@.dom().contains(n),
            |n: Seq<char>| self.entries@[self.index@[n] as int].1@,
        )
    }
}

impl View for DeltaSet {
    type V = Map<Seq<char>, Seq<Change>>;

    closed spec fn view(&self) -> Map<Seq<char>, Seq<Change>> {
        self.map()
    }
}

impl DeltaSet {
    /// No changes.
    pub fn new() -> (r: Self)
        ensures
            r.wf(),
            r@ == Map::<Seq<char>, Seq<Change>>::empty(),
    {
        let r = DeltaSet { entries: Vec::new(), index: NameIndex::new() };
        assert(r@ =~= Map::<Seq<char>, Seq<Change>>::empty());
        r
    }

    /// No changes.
    pub fn empty() -> (r: Self)
        ensures
            r.wf(),
            r@ == Map::<Seq<char>, Seq<Change>>::empty(),
    {
        DeltaSet::new()
    }

    /// The changes that some pairs hold.
    pub fn from_map(deltas: Vec<(String, Delta)>) -> (r: Self)
        ensures
            r.wf(),
            r@ == pairs_map(deltas@),
    {
        let ghost pairs = deltas@;
        let mut r = DeltaSet::new();
        let mut i: usize = 0;
        assert(pairs.take(0) =~= Seq::<(String, Delta)>::empty());
        while i < deltas.len()
            invariant
                i <= deltas.len(),
                pairs == deltas@,
                r.wf(),
                r@ == pairs_map(pairs.take(i as int)),
            decreases deltas.len() - i,
        {
            assert(pairs.take(i + 1).drop_last() =~= pairs.take(i as int));
            r.insert(deltas[i].0.clone(), deltas[i].1.clone());
            i += 1;
        }
        assert(pairs.take(i as int) =~= pairs);
        r
    }

    /// Sets the changes to a table.
    pub fn insert(&mut self, table_name: String, delta: Delta)
        requires
            old(self).wf(),
        ensures
            final(self).wf(),
            final(self)@ == old(self)@.insert(table_name@, delta@),
    {
        let ghost before = *self;
        let ghost n = table_name@;
        let ghost d = delta@;
        match self.index.get(table_name.as_str()) {
            Some(at) => {
                assert(self.index@.dom().contains(n));
                self.entries.set(at, (table_name, delta));
                proof {
                    assert forall|m: Seq<char>| #[trigger]
                        self.index@.dom().contains(m) implies self.index@[m]
                        < self.entries@.len() && self.entries@[self.index@[m] as int].0@ == m by {
                        if self.index@[m] == at {
                            assert(before.entries@[at as int].0@ == m);
                        }
                    }
                    assert forall|i: int| 0 <= i < self.entries@.len() implies self.index@.dom().contains(
                        (#[trigger] self.entries@[i]).0@,
                    ) && self.index@[self.entries@[i].0@] == i by {
                        assert(before.index@.dom().contains(before.entries@[i].0@));
                    }
                    assert(self@ =~= before@.insert(n, d));
                }
            },
            None => {
                let at: usize = self.entries.len();
                self.index.insert(table_name.clone(), at);
                self.entries.push((table_name, delta));
                proof {
                    assert(!before.index@.dom().contains(n));
                    assert forall|i: int| 0 <= i < self.entries@.len() implies self.index@.dom().contains(
                        (#[trigger] self.entries@[i]).0@,
                    ) && self.index@[self.entries@[i].0@] == i by {
                        if i < before.entries@.len() {
                            assert(before.index@.dom().contains(before.entries@[i].0@));
                        }
                    }
                    assert(self@ =~= before@.insert(n, d));
                }
            },
        }
    }

    /// The changes to a table, where there are any on record.
    pub fn find(&self, table_name: &str) -> (r: Option<Delta>)
        requires
            self.wf(),
        ensures
            match r {
                Some(d) => self@.dom().contains(table_name@) && self@[table_name@] == d@,
                None => !self@.dom().contains(table_name@),
            },
    {
        match self.index.get(table_name) {
            Some(at) => {
                assert(self.index@.dom().contains(table_name@));
                Some(self.entries[at].1.clone())
            },
            None => None,
        }
    }

    /// The changes to a table, none where none are on record.
    pub fn get(&self, table_name: &str) -> (r: Delta)
        requires
            self.wf(),
        ensures
            r@ == changes_of(self@, table_name@),
    {
        match self.find(table_name) {
            Some(d) => d,
            None => {
                let d = Delta::new();
                assert(d@ =~= no_changes());
                d
            },
        }
    }

    /// The tables and their changes, each table once.
    pub fn into_map(self) -> (r: Vec<(String, Delta)>)
        requires
            self.wf(),
        ensures
            pairs_map(r@) == self@,
            forall|i: int, j: int|
                0 <= i < j < r@.len() ==> (#[trigger] r@[i]).0@ != (#[trigger] r@[j]).0@,
    {
        proof {
            let n = self.entries@.len() as int;
            assert(self.entries@.take(n) =~= self.entries@);
            assert forall|m: Seq<char>|
                pairs_map(self.entries@).dom().contains(m) <==> #[trigger] self@.dom().contains(
                    m,
                ) by {
                self.lemma_pairs(n, m);
            }
            assert forall|m: Seq<char>| #[trigger] self@.dom().contains(m) implies pairs_map(
                self.entries@,
            )[m] == self@[m] by {
                self.lemma_pairs(n, m);
            }
            assert(pairs_map(self.entries@) =~= self@);
        }
        self.entries
    }

    proof fn lemma_pairs(&self, n: int, m: Seq<char>)
        requires
            self.wf(),
            0 <= n <= self.entries@.len(),
        ensures
            pairs_map(self.entries@.take(n)).dom().contains(m) <==> self.index@.dom().contains(m)
                && self.index@[m] < n,
            self.index@.dom().contains(m) && self.index@[m] < n ==> pairs_map(
                self.entries@.take(n),
            )[m] == self.entries@[self.index@[m] as int].1@,
        decreases n,
    {
        if n > 0 {
            self.lemma_pairs(n - 1, m);
            assert(self.entries@.take(n).drop_last() =~= self.entries@.take(n - 1));
            assert(self.entries@.take(n).last() == self.entries@[n - 1]);
            assert(self.index@.dom().contains(self.entries@[n - 1].0@));
        } else {
            assert(self.entries@.take(n) =~= Seq::<(String, Delta)>::empty());
        }
    }

    /// Whether no table changes.
    pub fn is_empty(&self) -> (r: bool)
        requires
            self.wf(),
        ensures
            r == (forall|n: Seq<char>| #[trigger]
                self@.dom().contains(n) ==> self@[n].len() == 0),
    {
        let mut i: usize = 0;
        while i < self.entries.len()
            invariant
                i <= self.entries.len(),
                self.wf(),
                forall|j: int| 0 <= j < i ==> (#[trigger] self.entries@[j]).1@.len() == 0,
            decreases self.entries.len() - i,
        {
            if !self.entries[i].1.is_empty() {
                assert(self@.dom().contains(self.entries@[i as int].0@));
                assert(self@[self.entries@[i as int].0@] == self.entries@[i as int].1@);
                return false;
            }
            i += 1;
        }
        true
    }
}

impl Clone for DeltaSet {
    fn clone(&self) -> (r: Self)
        ensures
            self.wf() ==> r.wf() && r@ == self@,
    {
        let mut entries: Vec<(String, Delta)> = Vec::new();
        let mut i: usize = 0;
        while i < self.entries.len()
            invariant
                i <= self.entries.len(),
                entries@.len() == i,
                forall|j: int|
                    0 <= j < i ==> (#[trigger] entries@[j]).0@ == self.entries@[j].0@
                        && entries@[j].1@ == self.entries@[j].1@,
            decreases self.entries.len() - i,
        {
            entries.push((self.entries[i].0.clone(), self.entries[i].1.clone()));
            i += 1;
        }
        let r = DeltaSet { entries, index: self.index.clone() };
        proof {
            if self.wf() {
                assert(r@ =~= self@);
                assert forall|i: int| 0 <= i < r.entries@.len() implies r.index@.dom().contains(
                    (#[trigger] r.entries@[i]).0@,
                ) && r.index@[r.entries@[i].0@] == i by {
                    assert(self.index@.dom().contains(self.entries@[i].0@));
                }
            }
        }
        r
    }
}

impl Default for DeltaSet {
    fn default() -> (r: Self)
        ensures
            r.wf(),
            r@ == Map::<Seq<char>, Seq<Change>>::empty(),
    {
        DeltaSet::new()
    }
}

/// The changes that a run reads: those it was given, and over them those that an iteration sets.
#[derive(Debug)]
pub struct InputDeltas {
    pub base: DeltaSet,
    pub overlay: DeltaSet,
}

#[verifier::ext_equal]
pub struct InputsView {
    pub base: Map<Seq<char>, Seq<Change>>,
    pub overlay: Map<Seq<char>, Seq<Change>>,
}

impl InputsView {
    /// The changes to a table: those of the overlay, else those of the base, else none.
    pub open spec fn at(&self, name: Seq<char>) -> Seq<Change> {
        if self.overlay.dom().contains(name) {
            self.overlay[name]
        } else {
            changes_of(self.base, name)
        }
    }

    pub open spec fn set(self, name: Seq<char>, changes: Seq<Change>) -> InputsView {
        InputsView { base: self.base, overlay: self.overlay.insert(name, changes) }
    }

    pub open spec fn without_base(self) -> InputsView {
        InputsView { base: Map::empty(), overlay: self.overlay }
    }
}

impl View for InputDeltas {
    type V = InputsView;

    open spec fn view(&self) -> InputsView {
        InputsView { base: self.base@, overlay: self.overlay@ }
    }
}

/// Whether a predicate may answer `answer` for a table and its changes.
pub open spec fn says<F: Fn(&String, &Delta) -> bool>(
    f: F,
    name: Seq<char>,
    changes: Seq<Change>,
    answer: bool,
) -> bool {
    exists|n: &String, d: &Delta| #[trigger]
        call_ensures(f, (n, d), answer) && n@ == name && d@ == changes
}

/// Whether `after` holds of `before` the tables that a predicate holds of, and nothing else.
pub open spec fn retained<F: Fn(&String, &Delta) -> bool>(
    f: F,
    before: Map<Seq<char>, Seq<Change>>,
    after: Map<Seq<char>, Seq<Change>>,
) -> bool {
    &&& forall|n: Seq<char>| #[trigger]
        after.dom().contains(n) ==> before.dom().contains(n) && after[n] == before[n]
    &&& forall|n: Seq<char>| #[trigger]
        before.dom().contains(n) ==> says(f, n, before[n], after.dom().contains(n))
}

/// The inputs of a run that was given `base`.
pub open spec fn inputs_from(base: Map<Seq<char>, Seq<Change>>) -> InputsView {
    InputsView { base, overlay: Map::empty() }
}

impl InputDeltas {
    pub open spec fn wf(&self) -> bool {
        self.base.wf() && self.overlay.wf()
    }

    /// The inputs of a run.
    pub fn from_base(base: DeltaSet) -> (r: Self)
        requires
            base.wf(),
        ensures
            r.wf(),
            r@ == inputs_from(base@),
    {
        InputDeltas { base, overlay: DeltaSet::new() }
    }

    /// The inputs of a run.
    pub fn from_delta_set(delta_set: DeltaSet) -> (r: Self)
        requires
            delta_set.wf(),
        ensures
            r.wf(),
            r@ == inputs_from(delta_set@),
    {
        InputDeltas::from_base(delta_set)
    }

    /// The inputs of a run, given by pairs.
    pub fn from_map(deltas: Vec<(String, Delta)>) -> (r: Self)
        ensures
            r.wf(),
            r@ == inputs_from(pairs_map(deltas@)),
    {
        InputDeltas::from_delta_set(DeltaSet::from_map(deltas))
    }

    /// The changes to a table.
    pub fn get(&self, table_name: &str) -> (r: Delta)
        requires
            self.wf(),
        ensures
            r@ == self@.at(table_name@),
    {
        match self.overlay.find(table_name) {
            Some(d) => d,
            None => self.base.get(table_name),
        }
    }

    /// Sets changes over those that were given.
    pub fn insert(&mut self, table_name: String, delta: Delta)
        requires
            old(self).wf(),
        ensures
            final(self).wf(),
            final(self)@ == old(self)@.set(table_name@, delta@),
    {
        self.overlay.insert(table_name, delta);
    }

    /// Keeps of the overlay only the tables that a predicate holds of, asked of each table and its
    /// changes.
    pub fn retain_overlay<F: Fn(&String, &Delta) -> bool>(&mut self, f: F)
        requires
            old(self).wf(),
            forall|name: &String, delta: &Delta| #[trigger] call_requires(f, (name, delta)),
        ensures
            final(self).wf(),
            final(self)@.base == old(self)@.base,
            retained(f, old(self)@.overlay, final(self)@.overlay),
    {
        let ghost before = self.overlay@;
        let mut kept = DeltaSet::new();
        let mut i: usize = 0;
        while i < self.overlay.entries.len()
            invariant
                i <= self.overlay.entries.len(),
                self.wf(),
                kept.wf(),
                *self == *old(self),
                before == self.overlay@,
                forall|name: &String, delta: &Delta| #[trigger] call_requires(f, (name, delta)),
                forall|n: Seq<char>| #[trigger]
                    kept@.dom().contains(n) ==> before.dom().contains(n) && kept@[n] == before[n]
                        && self.overlay.index@[n] < i,
                forall|j: int|
                    0 <= j < i ==> says(
                        f,
                        (#[trigger] self.overlay.entries@[j]).0@,
                        self.overlay.entries@[j].1@,
                        kept@.dom().contains(self.overlay.entries@[j].0@),
                    ),
            decreases self.overlay.entries.len() - i,
        {
            let ghost so_far = kept@;
            let name = &self.overlay.entries[i].0;
            let delta = &self.overlay.entries[i].1;
            let ghost own = name@;
            assert(self.overlay.index@.dom().contains(own) && self.overlay.index@[own] == i);
            assert(before.dom().contains(own) && before[own] == delta@);
            let keep: bool = f(name, delta);
            assert(says(f, name@, delta@, keep));
            if keep {
                kept.insert(name.clone(), delta.clone());
            }
            proof {
                assert forall|j: int| 0 <= j < i + 1 implies says(
                    f,
                    (#[trigger] self.overlay.entries@[j]).0@,
                    self.overlay.entries@[j].1@,
                    kept@.dom().contains(self.overlay.entries@[j].0@),
                ) by {
                    let n = self.overlay.entries@[j].0@;
                    assert(self.overlay.index@[n] == j);
                    if j < i {
                        assert(kept@.dom().contains(n) == so_far.dom().contains(n));
                    } else {
                        assert(!so_far.dom().contains(own));
                    }
                }
            }
            i += 1;
        }
        proof {
            assert forall|n: Seq<char>| #[trigger] before.dom().contains(n) implies says(
                f,
                n,
                before[n],
                kept@.dom().contains(n),
            ) by {
                let j = self.overlay.index@[n] as int;
                assert(self.overlay.entries@[j].0@ == n);
            }
        }
        self.overlay = kept;
    }

    /// Drops what was given. Used after the first iteration of a recursive plan.
    pub fn clear_base(&mut self)
        requires
            old(self).wf(),
        ensures
            final(self).wf(),
            final(self)@ == old(self)@.without_base(),
    {
        self.base = DeltaSet::new();
    }
}

impl Clone for InputDeltas {
    fn clone(&self) -> (r: Self)
        ensures
            self.wf() ==> r.wf() && r@ == self@,
    {
        InputDeltas { base: self.base.clone(), overlay: self.overlay.clone() }
    }
}

impl Default for InputDeltas {
    fn default() -> (r: Self)
        ensures
            r.wf(),
            r@ == inputs_from(Map::<Seq<char>, Seq<Change>>::empty()),
    {
        InputDeltas::from_base(DeltaSet::new())
    }
}

/// The changes that a table is read with are those laid over it, and where there are none, those that
/// the run was given, and where there are none of these either, none.
pub proof fn law_the_overlay_hides_the_base(inputs: InputsView, name: Seq<char>, other: Seq<char>)
    ensures
        ({
            let at = inputs.at(name);
            if inputs.overlay.dom().contains(name) {
                at == inputs.overlay[name]
            } else if inputs.base.dom().contains(name) {
                at == inputs.base[name]
            } else {
                at.len() == 0
            }
        }),
        forall|changes: Seq<Change>| #[trigger]
            inputs.set(name, changes).at(name) == changes && (other != name ==> inputs.set(
                name,
                changes,
            ).at(other) == inputs.at(other)),
        inputs.without_base().at(name) == (if inputs.overlay.dom().contains(name) {
            inputs.overlay[name]
        } else {
            Seq::empty()
        }),
{
}

} // verus!
