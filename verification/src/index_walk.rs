//! Walking an index on a view from end to end.
//!
//! The stored index is a list of entries in order. A cursor that walks over it, forward or backward,
//! comes to the stored entries that are not taken away and to those that are added, all in the
//! order of the index.

use vstd::prelude::*;

use crate::index_cursor::{
    comes_before, entries_in_order, entries_relation, even, lemma_entries_chain, next_addition,
    parts, started, stored_first, taken_away, took, went_on, BtreeStep, IndexAction,
    IndexEventView, Merging, Side, Standing,
};
use crate::numbers::Relation;
use crate::order::{
    compared, entry_relation, entry_relation_from, law_entries_are_totally_ordered, KeyInfo,
};
use crate::overlay::SeekOp;
use crate::seqs::{lemma_occurrences_insert, occurrences};
use crate::value::Datum;
use crate::write_row::SeekResult;

verus! {

/// The entries of two lists, each time the one that comes first, of equal ones that of the first
/// list.
pub open spec fn merge(info: Seq<KeyInfo>, stored: Seq<Seq<Datum>>, added: Seq<Seq<Datum>>) -> Seq<
    Seq<Datum>,
>
    decreases stored.len() + added.len(),
{
    if stored.len() == 0 {
        added
    } else if added.len() == 0 {
        stored
    } else if entries_relation(info, stored[0], added[0]) != Relation::Greater {
        merge(info, stored.skip(1), added).insert(0, stored[0])
    } else {
        merge(info, stored, added.skip(1)).insert(0, added[0])
    }
}

spec fn at_least(info: Seq<KeyInfo>, entries: Seq<Seq<Datum>>, b: Seq<Datum>) -> bool {
    forall|i: int|
        0 <= i < entries.len() ==> entries_relation(info, b, #[trigger] entries[i])
            != Relation::Greater
}

proof fn lemma_skip(info: Seq<KeyInfo>, s: Seq<Seq<Datum>>, len: nat)
    requires
        s.len() > 0,
        even(s, len),
        entries_in_order(info, s),
    ensures
        even(s.skip(1), len),
        entries_in_order(info, s.skip(1)),
        at_least(info, s.skip(1), s[0]),
{
    let t = s.skip(1);
    assert forall|i: int| 0 <= i < t.len() implies t[i] == s[i + 1] by {}
    assert forall|i: int, j: int| 0 <= i < j < t.len() implies entries_relation(
        info,
        #[trigger] t[i],
        #[trigger] t[j],
    ) != Relation::Greater by {
        assert(t[i] == s[i + 1] && t[j] == s[j + 1]);
    }
    assert forall|i: int| 0 <= i < t.len() implies entries_relation(info, s[0], #[trigger] t[i])
        != Relation::Greater by {
        assert(t[i] == s[i + 1]);
    }
}

/// What stands in order stays so behind an entry that comes before all of it.
proof fn lemma_prepend(
    info: Seq<KeyInfo>,
    rest: Seq<Seq<Datum>>,
    h: Seq<Datum>,
    len: nat,
    b: Seq<Datum>,
)
    requires
        even(rest, len),
        h.len() == len,
        entries_in_order(info, rest),
        at_least(info, rest, h),
    ensures
        even(rest.insert(0, h), len),
        entries_in_order(info, rest.insert(0, h)),
        at_least(info, rest, b) && entries_relation(info, b, h) != Relation::Greater ==> at_least(
            info,
            rest.insert(0, h),
            b,
        ),
{
    let m = rest.insert(0, h);
    assert(m[0] == h);
    assert forall|i: int| 0 < i < m.len() implies #[trigger] m[i] == rest[i - 1] by {}
    assert forall|i: int, j: int| 0 <= i < j < m.len() implies entries_relation(
        info,
        #[trigger] m[i],
        #[trigger] m[j],
    ) != Relation::Greater by {
        assert(m[j] == rest[j - 1]);
        if i > 0 {
            assert(m[i] == rest[i - 1]);
        }
    }
}

/// What comes before the first of a list in order comes before all of it.
proof fn lemma_before_all(info: Seq<KeyInfo>, s: Seq<Seq<Datum>>, h: Seq<Datum>, len: nat)
    requires
        s.len() > 0,
        even(s, len),
        h.len() == len,
        entries_in_order(info, s),
        entries_relation(info, h, s[0]) != Relation::Greater,
    ensures
        at_least(info, s, h),
{
    assert forall|i: int| 0 <= i < s.len() implies entries_relation(info, h, #[trigger] s[i])
        != Relation::Greater by {
        if i > 0 {
            assert(entries_relation(info, s[0], s[i]) != Relation::Greater);
            lemma_entries_chain(info, h, s[0], s[i]);
        }
    }
}

proof fn lemma_at_least_skip(info: Seq<KeyInfo>, s: Seq<Seq<Datum>>, b: Seq<Datum>)
    requires
        s.len() > 0,
    ensures
        at_least(info, s, b) ==> at_least(info, s.skip(1), b) && entries_relation(info, b, s[0])
            != Relation::Greater,
{
    if at_least(info, s, b) {
        assert forall|i: int| 0 <= i < s.skip(1).len() implies entries_relation(
            info,
            b,
            #[trigger] s.skip(1)[i],
        ) != Relation::Greater by {
            assert(s.skip(1)[i] == s[i + 1]);
        }
    }
}

proof fn lemma_merge(
    info: Seq<KeyInfo>,
    stored: Seq<Seq<Datum>>,
    added: Seq<Seq<Datum>>,
    len: nat,
    b: Seq<Datum>,
)
    requires
        even(stored, len),
        even(added, len),
        entries_in_order(info, stored),
        entries_in_order(info, added),
    ensures
        even(merge(info, stored, added), len),
        entries_in_order(info, merge(info, stored, added)),
        at_least(info, stored, b) && at_least(info, added, b) ==> at_least(
            info,
            merge(info, stored, added),
            b,
        ),
    decreases stored.len() + added.len(),
{
    if stored.len() > 0 && added.len() > 0 {
        if entries_relation(info, stored[0], added[0]) != Relation::Greater {
            let (h, c) = (stored[0], stored.skip(1));
            lemma_skip(info, stored, len);
            lemma_before_all(info, added, h, len);
            lemma_at_least_skip(info, stored, b);
            lemma_merge(info, c, added, len, h);
            lemma_merge(info, c, added, len, b);
            lemma_prepend(info, merge(info, c, added), h, len, b);
        } else {
            let (h, a) = (added[0], added.skip(1));
            lemma_entries_chain(info, stored[0], h, h);
            lemma_skip(info, added, len);
            lemma_before_all(info, stored, h, len);
            lemma_at_least_skip(info, added, b);
            lemma_merge(info, stored, a, len, h);
            lemma_merge(info, stored, a, len, b);
            lemma_prepend(info, merge(info, stored, a), h, len, b);
        }
    }
}

proof fn lemma_merge_occurrences(
    info: Seq<KeyInfo>,
    stored: Seq<Seq<Datum>>,
    added: Seq<Seq<Datum>>,
    e: Seq<Datum>,
)
    ensures
        occurrences(merge(info, stored, added), e) == occurrences(stored, e) + occurrences(
            added,
            e,
        ),
    decreases stored.len() + added.len(),
{
    if stored.len() > 0 && added.len() > 0 {
        if entries_relation(info, stored[0], added[0]) != Relation::Greater {
            let left = stored.skip(1);
            lemma_merge_occurrences(info, left, added, e);
            lemma_occurrences_insert(merge(info, left, added), 0, stored[0], e);
            lemma_occurrences_insert(left, 0, stored[0], e);
            assert(left.insert(0, stored[0]) =~= stored);
        } else {
            let left = added.skip(1);
            lemma_merge_occurrences(info, stored, left, e);
            lemma_occurrences_insert(merge(info, stored, left), 0, added[0], e);
            lemma_occurrences_insert(left, 0, added[0], e);
            assert(left.insert(0, added[0]) =~= added);
        }
    }
}

/// A merge stands in the order of the index and holds the entries of both sides, each as often.
pub proof fn law_merged_entries_are_in_order(
    info: Seq<KeyInfo>,
    stored: Seq<Seq<Datum>>,
    added: Seq<Seq<Datum>>,
    len: nat,
    e: Seq<Datum>,
)
    requires
        even(stored, len),
        even(added, len),
        entries_in_order(info, stored),
        entries_in_order(info, added),
    ensures
        entries_in_order(info, merge(info, stored, added)),
        occurrences(merge(info, stored, added), e) == occurrences(stored, e) + occurrences(
            added,
            e,
        ),
{
    lemma_merge(info, stored, added, len, e);
    lemma_merge_occurrences(info, stored, added, e);
}

// The stored index.

/// A stored index and the position that it stands at; it stands at no entry before the first and
/// past the last.
#[verifier::ext_equal]
pub struct StoredIndex {
    pub entries: Seq<Seq<Datum>>,
    pub at: int,
}

impl StoredIndex {
    /// The entry where it stands.
    pub open spec fn here(self) -> Option<Seq<Datum>> {
        if 0 <= self.at < self.entries.len() {
            Some(self.entries[self.at])
        } else {
            None
        }
    }

    /// How many entries lie ahead in a direction, the one where it stands included.
    pub open spec fn ahead(self, forward: bool) -> int {
        let n = if forward {
            self.entries.len() - self.at
        } else {
            self.at + 1
        };
        if n < 0 {
            0
        } else {
            n
        }
    }
}

/// The stored index after it was told what to do, and what it tells. What a search comes to is not
/// told here.
pub open spec fn performed(stored: StoredIndex, action: IndexAction) -> (
    StoredIndex,
    IndexEventView,
) {
    match action {
        IndexAction::Rewind => (StoredIndex { at: 0, ..stored }, IndexEventView::Moved),
        IndexAction::Last => (
            StoredIndex { at: stored.entries.len() - 1, ..stored },
            IndexEventView::Moved,
        ),
        IndexAction::Next => (StoredIndex { at: stored.at + 1, ..stored }, IndexEventView::Moved),
        IndexAction::Prev => (StoredIndex { at: stored.at - 1, ..stored }, IndexEventView::Moved),
        IndexAction::Read => (stored, IndexEventView::Record(stored.here())),
        IndexAction::Seek { .. } => (stored, IndexEventView::Resume),
    }
}

/// A bound on the steps that a move takes.
pub open spec fn effort(step: BtreeStep, stored: StoredIndex, event: IndexEventView) -> int {
    match step {
        BtreeStep::Idle => 0,
        BtreeStep::Rewinding => if event is Moved {
            4 * stored.ahead(true) + 3
        } else {
            (4 * stored.entries.len() + 4) as int
        },
        BtreeStep::Lasting => if event is Moved {
            4 * stored.ahead(false) + 3
        } else {
            (4 * stored.entries.len() + 4) as int
        },
        BtreeStep::Seeking { op } => 4 * stored.ahead(op.is_forward()) + 5,
        BtreeStep::Advancing { forward } => if event is Moved {
            4 * stored.ahead(forward) + 2
        } else {
            4 * stored.ahead(forward) + 3
        },
        BtreeStep::Reading { forward } => if event matches IndexEventView::Record(Some(_))
            && stored.ahead(forward) == 0 {
            5
        } else if event is Record {
            4 * stored.ahead(forward) + 1
        } else {
            4 * stored.ahead(forward) + 2
        },
    }
}

/// A move taken to its end: the stored index does what it is told until the cursor waits for
/// nothing. A search is left where the stored index is to be searched.
pub open spec fn whole_move(
    m: Merging,
    s: Standing,
    forward: bool,
    stored: StoredIndex,
    event: IndexEventView,
) -> (Standing, StoredIndex)
    decreases effort(s.side.step, stored, event),
{
    let n = went_on(m, s, forward, event);
    match n.1 {
        None => (n.0, stored),
        Some(IndexAction::Seek { .. }) => (n.0, stored),
        Some(action) => {
            let p = performed(stored, action);
            whole_move(m, n.0, forward, p.0, p.1)
        },
    }
}

/// A cursor after some moves in a direction.
pub open spec fn moves(m: Merging, s: Standing, forward: bool, stored: StoredIndex, n: nat) -> (
    Standing,
    StoredIndex,
)
    decreases n,
{
    if n == 0 {
        (s, stored)
    } else {
        let p = moves(m, s, forward, stored, (n - 1) as nat);
        whole_move(m, p.0, forward, p.1, IndexEventView::Resume)
    }
}

/// A cursor at its first entry.
pub open spec fn rewound(m: Merging, s: Standing, stored: StoredIndex) -> (Standing, StoredIndex) {
    whole_move(m, started(s, BtreeStep::Rewinding, 0), true, stored, IndexEventView::Resume)
}

/// A cursor at its last entry.
pub open spec fn at_last(m: Merging, s: Standing, stored: StoredIndex) -> (Standing, StoredIndex) {
    whole_move(
        m,
        started(s, BtreeStep::Lasting, m.additions.len() as int),
        false,
        stored,
        IndexEventView::Resume,
    )
}

// What there is to walk over.

pub open spec fn stays(m: Merging) -> spec_fn(Seq<Datum>) -> bool {
    |e: Seq<Datum>| !taken_away(m.info, m.tombstones, e)
}

/// The stored entries that are not taken away.
pub open spec fn kept(m: Merging, entries: Seq<Seq<Datum>>) -> Seq<Seq<Datum>> {
    entries.filter(stays(m))
}

/// The entries of an index as a transaction sees them.
pub open spec fn visible(m: Merging, entries: Seq<Seq<Datum>>) -> Seq<Seq<Datum>> {
    merge(
        m.info,
        if m.ignored {
            Seq::empty()
        } else {
            kept(m, entries)
        },
        m.additions,
    )
}

/// The element at a position, if there is one.
pub open spec fn nth<A>(s: Seq<A>, i: int) -> Option<A> {
    if 0 <= i < s.len() {
        Some(s[i])
    } else {
        None
    }
}

// Forward.

/// The entries from a position on.
pub open spec fn onward(entries: Seq<Seq<Datum>>, at: int) -> Seq<Seq<Datum>> {
    if at >= entries.len() {
        Seq::empty()
    } else {
        entries.skip(at)
    }
}

proof fn lemma_kept_onward(m: Merging, entries: Seq<Seq<Datum>>, at: int)
    requires
        0 <= at < entries.len(),
    ensures
        kept(m, onward(entries, at)) == (if stays(m)(entries[at]) {
            seq![entries[at]]
        } else {
            Seq::empty()
        }) + kept(m, onward(entries, at + 1)),
{
    let one = seq![entries[at]];
    let rest = onward(entries, at + 1);
    assert(onward(entries, at) =~= one + rest);
    Seq::filter_distributes_over_add(one, rest, stays(m));
    reveal_with_fuel(Seq::filter, 2);
    assert(one.drop_last() =~= Seq::<Seq<Datum>>::empty());
    assert(kept(m, one) =~= if stays(m)(entries[at]) {
        one
    } else {
        Seq::empty()
    });
}

/// Reading on from a position comes to the first entry from there on that stays.
proof fn lemma_read_forward(m: Merging, s: Standing, stored: StoredIndex)
    requires
        s.side.step == (BtreeStep::Reading { forward: true }),
        0 <= stored.at <= stored.entries.len(),
    ensures
        ({
            let r = whole_move(m, s, true, stored, IndexEventView::Record(stored.here()));
            let k = kept(m, onward(stored.entries, stored.at));
            &&& r.0 == took(
                m,
                Standing { side: Side { step: BtreeStep::Idle, pending: nth(k, 0) }, ..s },
                true,
            )
            &&& r.1.entries == stored.entries
            &&& k.len() > 0 ==> 0 <= r.1.at < stored.entries.len() && stored.entries[r.1.at] == k[0]
                && stays(m)(k[0]) && kept(m, onward(stored.entries, r.1.at)) == k
        }),
    decreases stored.entries.len() - stored.at,
{
    let event = IndexEventView::Record(stored.here());
    let k = kept(m, onward(stored.entries, stored.at));
    let r = whole_move(m, s, true, stored, event);
    let n = went_on(m, s, true, event);
    if stored.at < stored.entries.len() {
        let e = stored.entries[stored.at];
        lemma_kept_onward(m, stored.entries, stored.at);
        if stays(m)(e) {
            assert(k[0] == e);
        } else {
            assert(k =~= kept(m, onward(stored.entries, stored.at + 1)));
            assert(n.1 == Some(IndexAction::Next));
            let next = StoredIndex { at: stored.at + 1, ..stored };
            let s2 = n.0;
            assert(r == whole_move(m, s2, true, next, IndexEventView::Moved));
            let n2 = went_on(m, s2, true, IndexEventView::Moved);
            assert(n2.1 == Some(IndexAction::Read));
            assert(r == whole_move(m, n2.0, true, next, IndexEventView::Record(next.here())));
            lemma_read_forward(m, n2.0, next);
        }
    } else {
        assert(onward(stored.entries, stored.at) =~= Seq::<Seq<Datum>>::empty());
        reveal(Seq::filter);
        assert(k.len() == 0);
    }
}

/// Where a cursor stands between moves forward.
spec fn rests(m: Merging, s: Standing, stored: StoredIndex) -> bool {
    &&& 0 <= s.add_pos <= m.additions.len()
    &&& match s.side.step {
        BtreeStep::Idle => s.side.pending matches Some(e) ==> 0 <= stored.at
            < stored.entries.len() && stored.entries[stored.at] == e && stays(m)(e),
        BtreeStep::Advancing { forward: true } => 0 <= stored.at < stored.entries.len(),
        _ => false,
    }
}

/// The stored entries that are still to come.
spec fn left_ahead(m: Merging, s: Standing, stored: StoredIndex) -> Seq<Seq<Datum>> {
    match s.side.step {
        BtreeStep::Advancing { .. } => kept(m, onward(stored.entries, stored.at + 1)),
        _ => if s.side.pending is Some {
            kept(m, onward(stored.entries, stored.at))
        } else {
            Seq::empty()
        },
    }
}

spec fn to_come(m: Merging, s: Standing, stored: StoredIndex) -> Seq<Seq<Datum>> {
    merge(m.info, left_ahead(m, s, stored), m.additions.skip(s.add_pos))
}

proof fn lemma_took_forward(m: Merging, s: Standing, left: Seq<Seq<Datum>>)
    requires
        s.side.pending == nth(left, 0),
        0 <= s.add_pos <= m.additions.len(),
    ensures
        ({
            let r = took(m, s, true);
            let added = next_addition(m.additions, s.add_pos, true);
            let c = merge(m.info, left, m.additions.skip(s.add_pos));
            let rest = if stored_first(m.info, s.side.pending, added, true) {
                left.skip(1)
            } else {
                left
            };
            &&& 0 <= r.add_pos <= m.additions.len()
            &&& r.current == nth(c, 0)
            &&& c.len() == 0 ==> r.side == s.side && left.len() == 0 && r.add_pos
                == m.additions.len()
            &&& c.len() > 0 ==> c.skip(1) == merge(m.info, rest, m.additions.skip(r.add_pos))
        }),
{
    let added = m.additions.skip(s.add_pos);
    let c = merge(m.info, left, added);
    let r = took(m, s, true);
    if added.len() > 0 {
        assert(added[0] == m.additions[s.add_pos]);
        assert(added.skip(1) =~= m.additions.skip(s.add_pos + 1));
    }
    if left.len() == 0 {
        if added.len() > 0 {
            assert(c.skip(1) =~= merge(m.info, left, m.additions.skip(r.add_pos)));
        }
    } else if added.len() == 0 {
        assert(c.skip(1) =~= merge(m.info, left.skip(1), added));
    } else if entries_relation(m.info, left[0], added[0]) != Relation::Greater {
        assert(c.skip(1) =~= merge(m.info, left.skip(1), added));
    } else {
        assert(c.skip(1) =~= merge(m.info, left, added.skip(1)));
    }
}

/// A move forward takes the first of what is to come.
proof fn lemma_forward_move(m: Merging, s: Standing, stored: StoredIndex)
    requires
        rests(m, s, stored),
    ensures
        ({
            let r = whole_move(m, s, true, stored, IndexEventView::Resume);
            let c = to_come(m, s, stored);
            &&& rests(m, r.0, r.1)
            &&& r.1.entries == stored.entries
            &&& r.0.current == nth(c, 0)
            &&& to_come(m, r.0, r.1) == (if c.len() == 0 {
                c
            } else {
                c.skip(1)
            })
        }),
{
    let c = to_come(m, s, stored);
    let left = left_ahead(m, s, stored);
    if s.side.step == BtreeStep::Idle {
        lemma_rest(m, s, stored);
    } else {
        let n = went_on(m, s, true, IndexEventView::Resume);
        assert(n.1 == Some(IndexAction::Next));
        let next = StoredIndex { at: stored.at + 1, ..stored };
        let n2 = went_on(m, n.0, true, IndexEventView::Moved);
        assert(n2.1 == Some(IndexAction::Read));
        let r = whole_move(m, s, true, stored, IndexEventView::Resume);
        assert(r == whole_move(m, n.0, true, next, IndexEventView::Moved));
        assert(r == whole_move(m, n2.0, true, next, IndexEventView::Record(next.here())));
        lemma_read_forward(m, n2.0, next);
        let idle = Standing {
            side: Side { step: BtreeStep::Idle, pending: nth(left, 0) },
            ..n2.0
        };
        if left.len() == 0 {
            assert(left =~= Seq::<Seq<Datum>>::empty());
        }
        lemma_rest(m, idle, r.1);
    }
}

/// Taking the next entry where the next stored one is known.
proof fn lemma_rest(m: Merging, s: Standing, stored: StoredIndex)
    requires
        s.side.step == BtreeStep::Idle,
        rests(m, s, stored),
    ensures
        ({
            let r = took(m, s, true);
            let c = to_come(m, s, stored);
            &&& rests(m, r, stored)
            &&& r.current == nth(c, 0)
            &&& to_come(m, r, stored) == (if c.len() == 0 {
                c
            } else {
                c.skip(1)
            })
        }),
{
    let left = left_ahead(m, s, stored);
    if s.side.pending is Some {
        lemma_kept_onward(m, stored.entries, stored.at);
        assert(left.skip(1) =~= kept(m, onward(stored.entries, stored.at + 1)));
    }
    lemma_took_forward(m, s, left);
}

/// Rewinding takes the first of the entries that are visible.
proof fn lemma_rewound(m: Merging, s: Standing, stored: StoredIndex)
    ensures
        ({
            let r = rewound(m, s, stored);
            let c = visible(m, stored.entries);
            &&& rests(m, r.0, r.1)
            &&& r.1.entries == stored.entries
            &&& r.0.current == nth(c, 0)
            &&& to_come(m, r.0, r.1) == (if c.len() == 0 {
                c
            } else {
                c.skip(1)
            })
        }),
{
    let s1 = started(s, BtreeStep::Rewinding, 0);
    let r = rewound(m, s, stored);
    let n = went_on(m, s1, true, IndexEventView::Resume);
    assert(m.additions.skip(0) =~= m.additions);
    if m.ignored {
        let idle = Standing { side: Side { step: BtreeStep::Idle, pending: None }, ..s1 };
        lemma_rest(m, idle, stored);
    } else {
        assert(n.1 == Some(IndexAction::Rewind));
        let first = StoredIndex { at: 0, ..stored };
        assert(r == whole_move(m, n.0, true, first, IndexEventView::Moved));
        let n2 = went_on(m, n.0, true, IndexEventView::Moved);
        assert(n2.1 == Some(IndexAction::Read));
        assert(r == whole_move(m, n2.0, true, first, IndexEventView::Record(first.here())));
        lemma_read_forward(m, n2.0, first);
        assert(onward(stored.entries, 0) =~= stored.entries);
        let k = kept(m, stored.entries);
        let idle = Standing { side: Side { step: BtreeStep::Idle, pending: nth(k, 0) }, ..n2.0 };
        if k.len() == 0 {
            assert(k =~= Seq::<Seq<Datum>>::empty());
        }
        lemma_rest(m, idle, r.1);
    }
}

proof fn lemma_moves_forward(m: Merging, s: Standing, stored: StoredIndex, n: nat)
    ensures
        ({
            let first = rewound(m, s, stored);
            let r = moves(m, first.0, true, first.1, n);
            let c = visible(m, stored.entries);
            &&& rests(m, r.0, r.1)
            &&& r.1.entries == stored.entries
            &&& r.0.current == nth(c, n as int)
            &&& to_come(m, r.0, r.1) == (if n + 1 <= c.len() {
                c.skip(n as int + 1)
            } else {
                Seq::empty()
            })
        }),
    decreases n,
{
    lemma_rewound(m, s, stored);
    let c = visible(m, stored.entries);
    if n == 0 {
        if c.len() == 0 {
            assert(c =~= Seq::<Seq<Datum>>::empty());
        }
    } else {
        lemma_moves_forward(m, s, stored, (n - 1) as nat);
        let first = rewound(m, s, stored);
        let p = moves(m, first.0, true, first.1, (n - 1) as nat);
        lemma_forward_move(m, p.0, p.1);
        if n <= c.len() {
            if n < c.len() {
                assert(c.skip(n as int)[0] == c[n as int]);
                assert(c.skip(n as int).skip(1) =~= c.skip(n as int + 1));
            } else {
                assert(c.skip(n as int) =~= Seq::<Seq<Datum>>::empty());
            }
        }
    }
}

proof fn lemma_kept_within(m: Merging, entries: Seq<Seq<Datum>>)
    ensures
        forall|i: int|
            0 <= i < kept(m, entries).len() ==> entries.contains(#[trigger] kept(m, entries)[i]),
    decreases entries.len(),
{
    reveal(Seq::filter);
    let k = kept(m, entries);
    if entries.len() > 0 {
        let front = entries.drop_last();
        lemma_kept_within(m, front);
        let kf = kept(m, front);
        assert forall|i: int| 0 <= i < k.len() implies entries.contains(#[trigger] k[i]) by {
            if i < kf.len() {
                assert(k[i] == kf[i]);
                let j = choose|j: int| 0 <= j < front.len() && front[j] == kf[i];
                assert(entries[j] == k[i]);
            } else {
                assert(entries[entries.len() - 1] == k[i]);
            }
        }
    }
}

proof fn lemma_kept(m: Merging, entries: Seq<Seq<Datum>>, len: nat, e: Seq<Datum>)
    requires
        even(entries, len),
        entries_in_order(m.info, entries),
    ensures
        even(kept(m, entries), len),
        entries_in_order(m.info, kept(m, entries)),
        occurrences(kept(m, entries), e) == (if stays(m)(e) {
            occurrences(entries, e)
        } else {
            0
        }),
    decreases entries.len(),
{
    reveal(Seq::filter);
    let k = kept(m, entries);
    if entries.len() > 0 {
        let front = entries.drop_last();
        let x = entries.last();
        assert forall|i: int| 0 <= i < front.len() implies front[i] == entries[i] by {}
        lemma_kept(m, front, len, e);
        let kf = kept(m, front);
        lemma_kept_within(m, entries);
        lemma_kept_within(m, front);
        if stays(m)(x) {
            assert(k =~= kf.push(x));
            assert(k.drop_last() =~= kf);
            assert forall|i: int, j: int| 0 <= i < j < k.len() implies entries_relation(
                m.info,
                #[trigger] k[i],
                #[trigger] k[j],
            ) != Relation::Greater by {
                assert(k[i] == kf[i]);
                if j < kf.len() {
                    assert(k[j] == kf[j]);
                } else {
                    let o = choose|o: int| 0 <= o < front.len() && front[o] == kf[i];
                    assert(entries[o] == kf[i]);
                    assert(entries[entries.len() - 1] == x);
                }
            }
            assert(even(k, len)) by {
                assert forall|i: int| 0 <= i < k.len() implies (#[trigger] k[i]).len() == len by {
                    assert(entries.contains(k[i]));
                }
            }
        } else {
            assert(k =~= kf);
        }
    }
}

/// The stored entries that take part in a merge.
pub open spec fn taking_part(m: Merging, entries: Seq<Seq<Datum>>) -> Seq<Seq<Datum>> {
    if m.ignored {
        Seq::empty()
    } else {
        kept(m, entries)
    }
}

/// A walk forward, from the first entry to the end, comes to the visible entries one after the other
/// and then to none. They stand in the order of the index, and they are the stored entries that are
/// not taken away and the added ones, each as often; the stored ones are left out where the changes
/// are the whole view.
pub proof fn law_a_walk_forward_shows_the_visible_entries(
    m: Merging,
    s: Standing,
    stored: StoredIndex,
    len: nat,
    n: nat,
    e: Seq<Datum>,
)
    requires
        even(stored.entries, len),
        even(m.additions, len),
        entries_in_order(m.info, stored.entries),
        entries_in_order(m.info, m.additions),
    ensures
        ({
            let first = rewound(m, s, stored);
            moves(m, first.0, true, first.1, n).0.current == nth(
                visible(m, stored.entries),
                n as int,
            )
        }),
        entries_in_order(m.info, visible(m, stored.entries)),
        occurrences(visible(m, stored.entries), e) == (if m.ignored || taken_away(
            m.info,
            m.tombstones,
            e,
        ) {
            0
        } else {
            occurrences(stored.entries, e)
        }) + occurrences(m.additions, e),
{
    lemma_moves_forward(m, s, stored, n);
    lemma_kept(m, stored.entries, len, e);
    law_merged_entries_are_in_order(
        m.info,
        taking_part(m, stored.entries),
        m.additions,
        len,
        e,
    );
}

// Backward.

/// The entries up to a position.
pub open spec fn up_to(entries: Seq<Seq<Datum>>, at: int) -> Seq<Seq<Datum>> {
    if at < 0 {
        Seq::empty()
    } else {
        entries.take(at + 1)
    }
}

proof fn lemma_kept_up_to(m: Merging, entries: Seq<Seq<Datum>>, at: int)
    requires
        0 <= at < entries.len(),
    ensures
        kept(m, up_to(entries, at)) == kept(m, up_to(entries, at - 1)) + (if stays(m)(
            entries[at],
        ) {
            seq![entries[at]]
        } else {
            Seq::empty()
        }),
{
    reveal(Seq::filter);
    let all = up_to(entries, at);
    assert(all.drop_last() =~= up_to(entries, at - 1));
    assert(all.last() == entries[at]);
    assert(kept(m, all) =~= kept(m, up_to(entries, at - 1)) + (if stays(m)(entries[at]) {
        seq![entries[at]]
    } else {
        Seq::empty()
    }));
}

pub open spec fn last_of<A>(s: Seq<A>) -> Option<A> {
    nth(s, s.len() - 1)
}

proof fn lemma_read_backward(m: Merging, s: Standing, stored: StoredIndex)
    requires
        s.side.step == (BtreeStep::Reading { forward: false }),
        -1 <= stored.at < stored.entries.len(),
    ensures
        ({
            let r = whole_move(m, s, false, stored, IndexEventView::Record(stored.here()));
            let k = kept(m, up_to(stored.entries, stored.at));
            &&& r.0 == took(
                m,
                Standing { side: Side { step: BtreeStep::Idle, pending: last_of(k) }, ..s },
                false,
            )
            &&& r.1.entries == stored.entries
            &&& k.len() > 0 ==> 0 <= r.1.at < stored.entries.len() && stored.entries[r.1.at]
                == k.last() && stays(m)(k.last()) && kept(m, up_to(stored.entries, r.1.at)) == k
        }),
    decreases stored.at + 1,
{
    let event = IndexEventView::Record(stored.here());
    let k = kept(m, up_to(stored.entries, stored.at));
    let r = whole_move(m, s, false, stored, event);
    let n = went_on(m, s, false, event);
    if stored.at >= 0 {
        let e = stored.entries[stored.at];
        lemma_kept_up_to(m, stored.entries, stored.at);
        if stays(m)(e) {
            assert(k.last() == e);
        } else {
            assert(k =~= kept(m, up_to(stored.entries, stored.at - 1)));
            assert(n.1 == Some(IndexAction::Prev));
            let next = StoredIndex { at: stored.at - 1, ..stored };
            let s2 = n.0;
            assert(r == whole_move(m, s2, false, next, IndexEventView::Moved));
            let n2 = went_on(m, s2, false, IndexEventView::Moved);
            assert(n2.1 == Some(IndexAction::Read));
            assert(r == whole_move(m, n2.0, false, next, IndexEventView::Record(next.here())));
            lemma_read_backward(m, n2.0, next);
        }
    } else {
        reveal(Seq::filter);
        assert(k.len() == 0);
    }
}

/// Where a cursor stands between moves backward.
spec fn rests_back(m: Merging, s: Standing, stored: StoredIndex) -> bool {
    &&& 0 <= s.add_pos <= m.additions.len()
    &&& match s.side.step {
        BtreeStep::Idle => s.side.pending matches Some(e) ==> 0 <= stored.at
            < stored.entries.len() && stored.entries[stored.at] == e && stays(m)(e),
        BtreeStep::Advancing { forward: false } => 0 <= stored.at < stored.entries.len(),
        _ => false,
    }
}

spec fn left_behind(m: Merging, s: Standing, stored: StoredIndex) -> Seq<Seq<Datum>> {
    match s.side.step {
        BtreeStep::Advancing { .. } => kept(m, up_to(stored.entries, stored.at - 1)),
        _ => if s.side.pending is Some {
            kept(m, up_to(stored.entries, stored.at))
        } else {
            Seq::empty()
        },
    }
}

spec fn to_come_back(m: Merging, s: Standing, stored: StoredIndex) -> Seq<Seq<Datum>> {
    merge(m.info, m.additions.take(s.add_pos), left_behind(m, s, stored))
}

/// Two lists in order, of entries of one length.
#[verifier::opaque]
pub open spec fn mergeable(
    info: Seq<KeyInfo>,
    first: Seq<Seq<Datum>>,
    second: Seq<Seq<Datum>>,
    len: nat,
) -> bool {
    &&& even(first, len)
    &&& even(second, len)
    &&& entries_in_order(info, first)
    &&& entries_in_order(info, second)
}

proof fn lemma_mergeable_part(
    info: Seq<KeyInfo>,
    first: Seq<Seq<Datum>>,
    second: Seq<Seq<Datum>>,
    len: nat,
    a: int,
    b: int,
    c: int,
    d: int,
)
    requires
        mergeable(info, first, second, len),
        0 <= a <= b <= first.len(),
        0 <= c <= d <= second.len(),
    ensures
        mergeable(info, first.subrange(a, b), second.subrange(c, d), len),
{
    reveal(mergeable);
    let s = first.subrange(a, b);
    let t = second.subrange(c, d);
    assert forall|i: int| 0 <= i < s.len() implies #[trigger] s[i] == first[a + i] by {}
    assert forall|i: int| 0 <= i < t.len() implies #[trigger] t[i] == second[c + i] by {}
}

/// How the ends of two lists stand to each other.
proof fn lemma_ends(
    info: Seq<KeyInfo>,
    first: Seq<Seq<Datum>>,
    second: Seq<Seq<Datum>>,
    len: nat,
)
    requires
        mergeable(info, first, second, len),
        first.len() > 0,
        second.len() > 0,
    ensures
        entries_relation(info, second.last(), first.last()) == entries_relation(
            info,
            first.last(),
            second.last(),
        ).flipped(),
        entries_relation(info, first[0], second[0]) != Relation::Greater && first.len() == 1
            ==> entries_relation(info, first[0], second.last()) != Relation::Greater,
        entries_relation(info, first[0], second[0]) == Relation::Greater && second.len() == 1
            ==> entries_relation(info, first.last(), second[0]) == Relation::Greater,
{
    reveal(mergeable);
    let (n, k) = (first.len() as int, second.len() as int);
    assert(first.last() == first[n - 1] && second.last() == second[k - 1]);
    lemma_entries_chain(info, first[n - 1], second[k - 1], second[k - 1]);
    if k > 1 {
        assert(entries_relation(info, second[0], second[k - 1]) != Relation::Greater);
        lemma_entries_chain(info, first[0], second[0], second[k - 1]);
    }
    if n > 1 {
        assert(entries_relation(info, first[0], first[n - 1]) != Relation::Greater);
        lemma_entries_chain(info, first[0], first[n - 1], second[0]);
        lemma_entries_chain(info, second[0], first[0], first[n - 1]);
        lemma_entries_chain(info, first[0], second[0], second[0]);
        lemma_entries_chain(info, second[0], first[n - 1], first[n - 1]);
    }
}

/// The last of the first list, where it is the greater of the last entries, is the last of the merge.
proof fn lemma_merge_last_first(
    info: Seq<KeyInfo>,
    first: Seq<Seq<Datum>>,
    second: Seq<Seq<Datum>>,
    len: nat,
)
    requires
        mergeable(info, first, second, len),
        first.len() > 0,
        second.len() > 0 ==> entries_relation(info, first.last(), second.last())
            == Relation::Greater,
    ensures
        merge(info, first, second) == merge(info, first.drop_last(), second).push(first.last()),
    decreases first.len() + second.len(),
{
    let short = first.drop_last();
    let all = merge(info, first, second);
    let fl = first.last();
    if second.len() == 0 {
        assert(all =~= merge(info, short, second).push(fl));
    } else {
        lemma_ends(info, first, second, len);
        let n = first.len() as int;
        let k = second.len() as int;
        if entries_relation(info, first[0], second[0]) != Relation::Greater {
            assert(n > 1);
            let rest = first.skip(1);
            lemma_mergeable_part(info, first, second, len, 1, n, 0, k);
            assert(first.subrange(1, n) =~= rest);
            assert(second.subrange(0, k) =~= second);
            assert(rest.last() == fl);
            lemma_merge_last_first(info, rest, second, len);
            assert(short.skip(1) =~= rest.drop_last());
            assert(short[0] == first[0]);
            assert(all =~= merge(info, short, second).push(fl));
        } else {
            let rest = second.skip(1);
            lemma_mergeable_part(info, first, second, len, 0, n, 1, k);
            assert(second.subrange(1, k) =~= rest);
            assert(first.subrange(0, n) =~= first);
            assert(rest.len() > 0 ==> rest.last() == second.last());
            lemma_merge_last_first(info, first, rest, len);
            if short.len() == 0 {
                assert(merge(info, short, rest) =~= rest);
                assert(all =~= merge(info, short, second).push(fl));
            } else {
                assert(short[0] == first[0]);
                assert(all =~= merge(info, short, second).push(fl));
            }
        }
    }
}

/// The last of the second list, where the last of the first is not greater, is the last of the merge.
proof fn lemma_merge_last_second(
    info: Seq<KeyInfo>,
    first: Seq<Seq<Datum>>,
    second: Seq<Seq<Datum>>,
    len: nat,
)
    requires
        mergeable(info, first, second, len),
        second.len() > 0,
        first.len() > 0 ==> entries_relation(info, first.last(), second.last())
            != Relation::Greater,
    ensures
        merge(info, first, second) == merge(info, first, second.drop_last()).push(second.last()),
    decreases first.len() + second.len(),
{
    let short = second.drop_last();
    let all = merge(info, first, second);
    let sl = second.last();
    if first.len() == 0 {
        assert(all =~= merge(info, first, short).push(sl));
    } else {
        lemma_ends(info, first, second, len);
        let n = first.len() as int;
        let k = second.len() as int;
        if entries_relation(info, first[0], second[0]) != Relation::Greater {
            let rest = first.skip(1);
            lemma_mergeable_part(info, first, second, len, 1, n, 0, k);
            assert(first.subrange(1, n) =~= rest);
            assert(second.subrange(0, k) =~= second);
            assert(rest.len() > 0 ==> rest.last() == first.last());
            lemma_merge_last_second(info, rest, second, len);
            if short.len() == 0 {
                assert(merge(info, rest, short) =~= rest);
                assert(all =~= merge(info, first, short).push(sl));
            } else {
                assert(short[0] == second[0]);
                assert(all =~= merge(info, first, short).push(sl));
            }
        } else {
            assert(k > 1);
            let rest = second.skip(1);
            lemma_mergeable_part(info, first, second, len, 0, n, 1, k);
            assert(second.subrange(1, k) =~= rest);
            assert(first.subrange(0, n) =~= first);
            assert(rest.last() == sl);
            lemma_merge_last_second(info, first, rest, len);
            assert(short.skip(1) =~= rest.drop_last());
            assert(short[0] == second[0]);
            assert(all =~= merge(info, first, short).push(sl));
        }
    }
}

proof fn lemma_took_backward(m: Merging, s: Standing, left: Seq<Seq<Datum>>, len: nat)
    requires
        s.side.pending == last_of(left),
        0 <= s.add_pos <= m.additions.len(),
        mergeable(m.info, m.additions.take(s.add_pos), left, len),
    ensures
        ({
            let r = took(m, s, false);
            let added = next_addition(m.additions, s.add_pos, false);
            let c = merge(m.info, m.additions.take(s.add_pos), left);
            let rest = if stored_first(m.info, s.side.pending, added, false) {
                left.drop_last()
            } else {
                left
            };
            &&& 0 <= r.add_pos <= m.additions.len()
            &&& r.current == last_of(c)
            &&& c.len() == 0 ==> r.side == s.side && left.len() == 0 && r.add_pos == 0
            &&& c.len() > 0 ==> c.drop_last() == merge(m.info, m.additions.take(r.add_pos), rest)
        }),
{
    let added = m.additions.take(s.add_pos);
    let c = merge(m.info, added, left);
    let r = took(m, s, false);
    if added.len() > 0 {
        assert(added.last() == m.additions[s.add_pos - 1]);
        assert(added.drop_last() =~= m.additions.take(s.add_pos - 1));
        assert(added[added.len() - 1] == added.last());
    }
    if left.len() > 0 {
        assert(left[left.len() - 1] == left.last());
    }
    if left.len() > 0 && added.len() > 0 {
        lemma_ends(m.info, added, left, len);
    }
    if stored_first(
        m.info,
        s.side.pending,
        next_addition(m.additions, s.add_pos, false),
        false,
    ) {
        lemma_merge_last_second(m.info, added, left, len);
    } else if added.len() > 0 {
        lemma_merge_last_first(m.info, added, left, len);
    }
    if c.len() > 0 {
        let rest = if stored_first(
            m.info,
            s.side.pending,
            next_addition(m.additions, s.add_pos, false),
            false,
        ) {
            left.drop_last()
        } else {
            left
        };
        assert(c.drop_last() =~= merge(m.info, m.additions.take(r.add_pos), rest));
    }
}

/// Taking the next entry backward where the next stored one is known.
proof fn lemma_rest_back(m: Merging, s: Standing, stored: StoredIndex, len: nat)
    requires
        s.side.step == BtreeStep::Idle,
        rests_back(m, s, stored),
        mergeable(m.info, m.additions.take(s.add_pos), left_behind(m, s, stored), len),
    ensures
        ({
            let r = took(m, s, false);
            let c = to_come_back(m, s, stored);
            &&& rests_back(m, r, stored)
            &&& r.current == last_of(c)
            &&& mergeable(m.info, m.additions.take(r.add_pos), left_behind(m, r, stored), len)
            &&& to_come_back(m, r, stored) == (if c.len() == 0 {
                c
            } else {
                c.drop_last()
            })
        }),
{
    let left = left_behind(m, s, stored);
    let added = m.additions.take(s.add_pos);
    if s.side.pending is Some {
        lemma_kept_up_to(m, stored.entries, stored.at);
        assert(left.drop_last() =~= kept(m, up_to(stored.entries, stored.at - 1)));
    }
    lemma_took_backward(m, s, left, len);
    let (n, k) = (left.len() as int, added.len() as int);
    assert(left.subrange(0, n) =~= left);
    assert(added.subrange(0, k) =~= added);
    if n > 0 {
        lemma_mergeable_part(m.info, added, left, len, 0, k, 0, n - 1);
        assert(left.subrange(0, n - 1) =~= left.drop_last());
    }
    if k > 0 {
        lemma_mergeable_part(m.info, added, left, len, 0, k - 1, 0, n);
        assert(added.subrange(0, k - 1) =~= m.additions.take(s.add_pos - 1));
    }
}

proof fn lemma_backward_move(m: Merging, s: Standing, stored: StoredIndex, len: nat)
    requires
        rests_back(m, s, stored),
        mergeable(m.info, m.additions.take(s.add_pos), left_behind(m, s, stored), len),
    ensures
        ({
            let r = whole_move(m, s, false, stored, IndexEventView::Resume);
            let c = to_come_back(m, s, stored);
            &&& rests_back(m, r.0, r.1)
            &&& r.1.entries == stored.entries
            &&& r.0.current == last_of(c)
            &&& mergeable(m.info, m.additions.take(r.0.add_pos), left_behind(m, r.0, r.1), len)
            &&& to_come_back(m, r.0, r.1) == (if c.len() == 0 {
                c
            } else {
                c.drop_last()
            })
        }),
{
    let left = left_behind(m, s, stored);
    if s.side.step == BtreeStep::Idle {
        lemma_rest_back(m, s, stored, len);
    } else {
        let n = went_on(m, s, false, IndexEventView::Resume);
        assert(n.1 == Some(IndexAction::Prev));
        let next = StoredIndex { at: stored.at - 1, ..stored };
        let n2 = went_on(m, n.0, false, IndexEventView::Moved);
        assert(n2.1 == Some(IndexAction::Read));
        let r = whole_move(m, s, false, stored, IndexEventView::Resume);
        assert(r == whole_move(m, n.0, false, next, IndexEventView::Moved));
        assert(r == whole_move(m, n2.0, false, next, IndexEventView::Record(next.here())));
        lemma_read_backward(m, n2.0, next);
        let idle = Standing {
            side: Side { step: BtreeStep::Idle, pending: last_of(left) },
            ..n2.0
        };
        if left.len() == 0 {
            assert(left =~= Seq::<Seq<Datum>>::empty());
        }
        lemma_rest_back(m, idle, r.1, len);
    }
}

proof fn lemma_at_last(m: Merging, s: Standing, stored: StoredIndex, len: nat)
    requires
        mergeable(m.info, m.additions, taking_part(m, stored.entries), len),
    ensures
        ({
            let r = at_last(m, s, stored);
            let c = shown_backward(m, stored.entries);
            &&& rests_back(m, r.0, r.1)
            &&& r.1.entries == stored.entries
            &&& r.0.current == last_of(c)
            &&& mergeable(m.info, m.additions.take(r.0.add_pos), left_behind(m, r.0, r.1), len)
            &&& to_come_back(m, r.0, r.1) == (if c.len() == 0 {
                c
            } else {
                c.drop_last()
            })
        }),
{
    let s1 = started(s, BtreeStep::Lasting, m.additions.len() as int);
    let r = at_last(m, s, stored);
    let n = went_on(m, s1, false, IndexEventView::Resume);
    assert(m.additions.take(m.additions.len() as int) =~= m.additions);
    if m.ignored {
        let idle = Standing { side: Side { step: BtreeStep::Idle, pending: None }, ..s1 };
        lemma_rest_back(m, idle, stored, len);
    } else {
        assert(n.1 == Some(IndexAction::Last));
        let end = StoredIndex { at: stored.entries.len() - 1, ..stored };
        assert(r == whole_move(m, n.0, false, end, IndexEventView::Moved));
        let n2 = went_on(m, n.0, false, IndexEventView::Moved);
        assert(n2.1 == Some(IndexAction::Read));
        assert(r == whole_move(m, n2.0, false, end, IndexEventView::Record(end.here())));
        lemma_read_backward(m, n2.0, end);
        assert(up_to(stored.entries, end.at) =~= stored.entries);
        let k = kept(m, stored.entries);
        let idle = Standing { side: Side { step: BtreeStep::Idle, pending: last_of(k) }, ..n2.0 };
        if k.len() == 0 {
            assert(k =~= Seq::<Seq<Datum>>::empty());
        }
        lemma_rest_back(m, idle, r.1, len);
    }
}

proof fn lemma_moves_backward(m: Merging, s: Standing, stored: StoredIndex, len: nat, n: nat)
    requires
        mergeable(m.info, m.additions, taking_part(m, stored.entries), len),
    ensures
        ({
            let end = at_last(m, s, stored);
            let r = moves(m, end.0, false, end.1, n);
            let c = shown_backward(m, stored.entries);
            &&& rests_back(m, r.0, r.1)
            &&& r.1.entries == stored.entries
            &&& r.0.current == nth(c, c.len() - 1 - n)
            &&& mergeable(m.info, m.additions.take(r.0.add_pos), left_behind(m, r.0, r.1), len)
            &&& to_come_back(m, r.0, r.1) == (if n + 1 <= c.len() {
                c.take(c.len() - 1 - n)
            } else {
                Seq::empty()
            })
        }),
    decreases n,
{
    lemma_at_last(m, s, stored, len);
    let c = shown_backward(m, stored.entries);
    if n == 0 {
        if c.len() == 0 {
            assert(c =~= Seq::<Seq<Datum>>::empty());
        } else {
            assert(c.drop_last() =~= c.take(c.len() - 1));
        }
    } else {
        lemma_moves_backward(m, s, stored, len, (n - 1) as nat);
        let end = at_last(m, s, stored);
        let p = moves(m, end.0, false, end.1, (n - 1) as nat);
        lemma_backward_move(m, p.0, p.1, len);
        if n <= c.len() {
            if n < c.len() {
                assert(c.take(c.len() - n).last() == c[c.len() - 1 - n]);
                assert(c.take(c.len() - n).drop_last() =~= c.take(c.len() - 1 - n));
            } else {
                assert(c.take(c.len() - n) =~= Seq::<Seq<Datum>>::empty());
            }
        }
    }
}

/// Whether two lists stand for each other in an order: entry by entry they compare equal.
pub open spec fn alike(info: Seq<KeyInfo>, a: Seq<Seq<Datum>>, b: Seq<Seq<Datum>>) -> bool {
    &&& a.len() == b.len()
    &&& forall|i: int|
        0 <= i < a.len() ==> entries_relation(info, #[trigger] a[i], b[i]) == Relation::Equal
}

/// No entry of one list compares equal to one of the other.
pub open spec fn apart(info: Seq<KeyInfo>, a: Seq<Seq<Datum>>, b: Seq<Seq<Datum>>) -> bool {
    forall|i: int, j: int|
        0 <= i < a.len() && 0 <= j < b.len() ==> entries_relation(
            info,
            #[trigger] a[i],
            #[trigger] b[j],
        ) != Relation::Equal
}

proof fn lemma_alike_insert(
    info: Seq<KeyInfo>,
    x: Seq<Datum>,
    y: Seq<Datum>,
    a: Seq<Seq<Datum>>,
    b: Seq<Seq<Datum>>,
)
    requires
        entries_relation(info, x, y) == Relation::Equal,
        alike(info, a, b),
    ensures
        alike(info, a.insert(0, x), b.insert(0, y)),
{
    let c = a.insert(0, x);
    let d = b.insert(0, y);
    assert forall|i: int| 0 <= i < c.len() implies entries_relation(info, #[trigger] c[i], d[i])
        == Relation::Equal by {
        if i > 0 {
            assert(c[i] == a[i - 1] && d[i] == b[i - 1]);
        }
    }
}

proof fn lemma_alike_chain(
    info: Seq<KeyInfo>,
    a: Seq<Seq<Datum>>,
    b: Seq<Seq<Datum>>,
    c: Seq<Seq<Datum>>,
    len: nat,
)
    requires
        even(a, len),
        even(b, len),
        even(c, len),
        alike(info, a, b),
        alike(info, b, c),
    ensures
        alike(info, a, c),
        alike(info, b, a),
{
    assert forall|i: int| 0 <= i < a.len() implies entries_relation(info, #[trigger] a[i], c[i])
        == Relation::Equal by {
        assert(entries_relation(info, b[i], c[i]) == Relation::Equal);
        lemma_entries_chain(info, a[i], b[i], c[i]);
    }
    assert forall|i: int| 0 <= i < a.len() implies entries_relation(info, #[trigger] b[i], a[i])
        == Relation::Equal by {
        assert(entries_relation(info, a[i], b[i]) == Relation::Equal);
        lemma_entries_chain(info, a[i], b[i], b[i]);
    }
}

proof fn lemma_alike_itself(info: Seq<KeyInfo>, a: Seq<Seq<Datum>>)
    ensures
        alike(info, a, a),
{
    assert forall|i: int| 0 <= i < a.len() implies entries_relation(info, #[trigger] a[i], a[i])
        == Relation::Equal by {
        lemma_entries_chain(info, a[i], a[i], a[i]);
    }
}

/// An entry that comes before all of two lists may stand before their merge.
proof fn lemma_merge_least(
    info: Seq<KeyInfo>,
    u: Seq<Seq<Datum>>,
    b: Seq<Datum>,
    v: Seq<Seq<Datum>>,
    len: nat,
)
    requires
        even(u, len),
        even(v, len),
        b.len() == len,
        entries_in_order(info, u),
        entries_in_order(info, v),
        at_least(info, u, b),
        at_least(info, v, b),
    ensures
        alike(info, merge(info, u, v.insert(0, b)), merge(info, u, v).insert(0, b)),
        even(merge(info, u, v.insert(0, b)), len),
    decreases u.len(),
{
    let w = v.insert(0, b);
    let all = merge(info, u, w);
    let goal = merge(info, u, v).insert(0, b);
    lemma_prepend(info, v, b, len, b);
    lemma_merge(info, u, w, len, b);
    assert(w.skip(1) =~= v);
    if u.len() == 0 {
        assert(all =~= goal);
        lemma_alike_itself(info, all);
    } else if entries_relation(info, u[0], b) == Relation::Greater {
        assert(w[0] == b);
        assert(all == merge(info, u, w.skip(1)).insert(0, b));
        lemma_alike_itself(info, all);
    } else {
        let rest = u.skip(1);
        lemma_skip(info, u, len);
        lemma_at_least_skip(info, u, b);
        lemma_merge_least(info, rest, b, v, len);
        lemma_entries_chain(info, u[0], b, b);
        assert(entries_relation(info, b, u[0]) != Relation::Greater);
        assert(entries_relation(info, u[0], b) == Relation::Equal);
        assert(w[0] == b);
        let inner = merge(info, rest, v);
        assert(all == merge(info, rest, w).insert(0, u[0]));
        lemma_entries_chain(info, u[0], u[0], u[0]);
        lemma_alike_insert(info, u[0], u[0], merge(info, rest, w), inner.insert(0, b));
        let mid = inner.insert(0, b).insert(0, u[0]);
        if v.len() > 0 {
            assert(entries_relation(info, b, v[0]) != Relation::Greater);
            lemma_entries_chain(info, u[0], b, v[0]);
        }
        assert(merge(info, u, v) =~= inner.insert(0, u[0]));
        assert(goal =~= inner.insert(0, u[0]).insert(0, b));
        lemma_alike_itself(info, inner);
        lemma_alike_insert(info, b, u[0], inner, inner);
        lemma_alike_insert(info, u[0], b, inner.insert(0, b), inner.insert(0, u[0]));
        lemma_merge(info, u, v, len, b);
        lemma_merge(info, rest, v, len, b);
        lemma_prepend_even(inner, b, len);
        lemma_prepend_even(inner.insert(0, b), u[0], len);
        lemma_prepend_even(merge(info, u, v), b, len);
        lemma_alike_chain(info, all, mid, goal, len);
    }
}

proof fn lemma_prepend_even(rest: Seq<Seq<Datum>>, h: Seq<Datum>, len: nat)
    requires
        even(rest, len),
        h.len() == len,
    ensures
        even(rest.insert(0, h), len),
{
    let m = rest.insert(0, h);
    assert forall|i: int| 0 <= i < m.len() implies (#[trigger] m[i]).len() == len by {
        if i > 0 {
            assert(m[i] == rest[i - 1]);
        }
    }
}

/// Two lists merge to the same in either order, up to which of equal entries comes first.
proof fn lemma_merge_turned(
    info: Seq<KeyInfo>,
    x: Seq<Seq<Datum>>,
    y: Seq<Seq<Datum>>,
    len: nat,
)
    requires
        even(x, len),
        even(y, len),
        entries_in_order(info, x),
        entries_in_order(info, y),
    ensures
        alike(info, merge(info, x, y), merge(info, y, x)),
        apart(info, x, y) ==> merge(info, x, y) == merge(info, y, x),
        even(merge(info, x, y), len),
        even(merge(info, y, x), len),
    decreases x.len() + y.len(),
{
    let a = merge(info, x, y);
    let b = merge(info, y, x);
    if x.len() == 0 || y.len() == 0 {
        assert(a =~= b);
        lemma_alike_itself(info, a);
        lemma_merge(info, x, y, len, Seq::empty());
    } else {
        lemma_skip(info, x, len);
        lemma_skip(info, y, len);
        lemma_merge(info, x, y, len, Seq::empty());
        lemma_merge(info, y, x, len, Seq::empty());
        lemma_entries_chain(info, x[0], y[0], y[0]);
        lemma_entries_chain(info, y[0], x[0], x[0]);
        let (xs, ys) = (x.skip(1), y.skip(1));
        assert(apart(info, x, y) ==> apart(info, xs, y)) by {
            assert forall|i: int| 0 <= i < xs.len() implies xs[i] == x[i + 1] by {}
        }
        assert(apart(info, x, y) ==> apart(info, x, ys)) by {
            assert forall|i: int| 0 <= i < ys.len() implies ys[i] == y[i + 1] by {}
        }
        match entries_relation(info, x[0], y[0]) {
            Relation::Less => {
                lemma_merge_turned(info, xs, y, len);
                lemma_alike_insert(info, x[0], x[0], merge(info, xs, y), merge(info, y, xs));
            },
            Relation::Greater => {
                lemma_merge_turned(info, x, ys, len);
                lemma_alike_insert(info, y[0], y[0], merge(info, x, ys), merge(info, ys, x));
            },
            Relation::Equal => {
                lemma_merge_turned(info, xs, ys, len);
                let c = merge(info, xs, ys);
                let d = merge(info, ys, xs);
                lemma_before_rest(info, xs, x[0], y[0], len);
                lemma_before_rest(info, ys, y[0], x[0], len);
                lemma_merge_least(info, xs, y[0], ys, len);
                lemma_merge_least(info, ys, x[0], xs, len);
                assert(ys.insert(0, y[0]) =~= y);
                assert(xs.insert(0, x[0]) =~= x);
                lemma_alike_insert(info, x[0], x[0], merge(info, xs, y), c.insert(0, y[0]));
                lemma_alike_insert(info, y[0], x[0], c, d);
                lemma_alike_insert(info, x[0], y[0], c.insert(0, y[0]), d.insert(0, x[0]));
                lemma_alike_insert(info, y[0], y[0], merge(info, ys, x), d.insert(0, x[0]));
                let e = c.insert(0, y[0]).insert(0, x[0]);
                let f = d.insert(0, x[0]).insert(0, y[0]);
                lemma_prepend_even(c, y[0], len);
                lemma_prepend_even(c.insert(0, y[0]), x[0], len);
                lemma_prepend_even(d, x[0], len);
                lemma_prepend_even(d.insert(0, x[0]), y[0], len);
                lemma_alike_itself(info, f);
                lemma_alike_itself(info, b);
                lemma_alike_chain(info, b, f, f, len);
                lemma_alike_chain(info, a, e, f, len);
                lemma_alike_chain(info, a, f, b, len);
            },
        }
    }
}

/// What comes before a list comes before it under any entry that compares equal.
proof fn lemma_before_rest(
    info: Seq<KeyInfo>,
    s: Seq<Seq<Datum>>,
    h: Seq<Datum>,
    b: Seq<Datum>,
    len: nat,
)
    requires
        even(s, len),
        h.len() == len,
        b.len() == len,
        at_least(info, s, h),
        entries_relation(info, h, b) == Relation::Equal,
    ensures
        at_least(info, s, b),
{
    assert forall|i: int| 0 <= i < s.len() implies entries_relation(info, b, #[trigger] s[i])
        != Relation::Greater by {
        assert(entries_relation(info, h, s[i]) != Relation::Greater);
        lemma_entries_chain(info, h, b, b);
        lemma_entries_chain(info, b, h, s[i]);
    }
}

/// The entries of an index as a transaction sees them, of equal ones the added before the stored: so
/// a walk backward shows them, from its end.
pub open spec fn shown_backward(m: Merging, entries: Seq<Seq<Datum>>) -> Seq<Seq<Datum>> {
    merge(m.info, m.additions, taking_part(m, entries))
}

/// A walk backward, from the last entry, comes to the visible entries in reverse and then to none:
/// each compares equal to the one that a walk forward has in its place, and they are the same
/// entries, each as often. Where no stored entry compares equal to an added one, the walk backward is
/// the walk forward reversed, entry by entry.
pub proof fn law_a_walk_backward_is_the_walk_forward_reversed(
    m: Merging,
    s: Standing,
    stored: StoredIndex,
    len: nat,
    n: nat,
    e: Seq<Datum>,
)
    requires
        even(stored.entries, len),
        even(m.additions, len),
        entries_in_order(m.info, stored.entries),
        entries_in_order(m.info, m.additions),
    ensures
        ({
            let end = at_last(m, s, stored);
            moves(m, end.0, false, end.1, n).0.current == nth(
                shown_backward(m, stored.entries).reverse(),
                n as int,
            )
        }),
        alike(m.info, shown_backward(m, stored.entries), visible(m, stored.entries)),
        occurrences(shown_backward(m, stored.entries), e) == occurrences(
            visible(m, stored.entries),
            e,
        ),
        apart(m.info, taking_part(m, stored.entries), m.additions) ==> shown_backward(
            m,
            stored.entries,
        ) == visible(m, stored.entries),
{
    lemma_kept(m, stored.entries, len, Seq::empty());
    reveal(mergeable);
    lemma_moves_backward(m, s, stored, len, n);
    let taking = taking_part(m, stored.entries);
    lemma_merge_turned(m.info, m.additions, taking, len);
    lemma_merge_turned(m.info, taking, m.additions, len);
    lemma_merge_occurrences(m.info, m.additions, taking, e);
    lemma_merge_occurrences(m.info, taking, m.additions, e);
}

// Searching.

proof fn lemma_prefix_relation(
    info: Seq<KeyInfo>,
    a: Seq<Datum>,
    b: Seq<Datum>,
    i: int,
    n: int,
    more: int,
)
    requires
        n <= more,
    ensures
        entry_relation_from(info, a, b, i, n) != Relation::Equal ==> entry_relation_from(
            info,
            a,
            b,
            i,
            more,
        ) == entry_relation_from(info, a, b, i, n),
    decreases n - i,
{
    if i < n {
        lemma_prefix_relation(info, a, b, i + 1, n, more);
    }
}

/// What stands before an entry that comes before a key comes before the key too.
proof fn lemma_comes_before(
    info: Seq<KeyInfo>,
    a: Seq<Datum>,
    b: Seq<Datum>,
    key: Seq<Datum>,
    op: SeekOp,
)
    requires
        a.len() == b.len(),
        key.len() <= usize::MAX,
        entries_relation(info, a, b) != Relation::Greater,
        comes_before(info, b, key, key.len() as int, op),
    ensures
        comes_before(info, a, key, key.len() as int, op),
{
    let n = key.len() as int;
    lemma_prefix_relation(
        info,
        a,
        b,
        0,
        compared(info, a, b, n),
        compared(info, a, b, usize::MAX as int),
    );
    law_entries_are_totally_ordered(info, a, b, key, n);
}

/// A position that parts entries in order parts all of them.
proof fn lemma_parted(
    info: Seq<KeyInfo>,
    entries: Seq<Seq<Datum>>,
    len: nat,
    key: Seq<Datum>,
    op: SeekOp,
    p: int,
    i: int,
)
    requires
        even(entries, len),
        entries_in_order(info, entries),
        key.len() <= usize::MAX,
        parts(info, entries, key, key.len() as int, op, p),
        p <= i < entries.len(),
    ensures
        !comes_before(info, entries[i], key, key.len() as int, op),
{
    if i > p && comes_before(info, entries[i], key, key.len() as int, op) {
        assert(entries_relation(info, entries[p], entries[i]) != Relation::Greater);
        lemma_comes_before(info, entries[p], entries[i], key, op);
    }
}

/// Whether a merge falls into the merges of the beginnings and of the ends of two lists.
#[verifier::opaque]
spec fn splits(
    info: Seq<KeyInfo>,
    stored: Seq<Seq<Datum>>,
    added: Seq<Seq<Datum>>,
    p: int,
    q: int,
) -> bool {
    let all = merge(info, stored, added);
    &&& all.len() == stored.len() + added.len()
    &&& all.skip(p + q) == merge(info, stored.skip(p), added.skip(q))
    &&& all.take(p + q) == merge(info, stored.take(p), added.take(q))
}

proof fn lemma_splits_at_ends(
    info: Seq<KeyInfo>,
    stored: Seq<Seq<Datum>>,
    added: Seq<Seq<Datum>>,
    p: int,
    q: int,
)
    requires
        0 <= p <= stored.len(),
        0 <= q <= added.len(),
        stored.len() == 0 || added.len() == 0 || p + q == 0,
    ensures
        splits(info, stored, added, p, q),
{
    reveal(splits);
    lemma_unparted_len(info, stored, added);
    let all = merge(info, stored, added);
    if stored.len() > 0 && added.len() > 0 {
        assert(stored.skip(0) =~= stored && added.skip(0) =~= added);
    }
    assert(all.skip(p + q) =~= merge(info, stored.skip(p), added.skip(q)));
    assert(all.take(p + q) =~= merge(info, stored.take(p), added.take(q)));
}

proof fn lemma_splits_stored(
    info: Seq<KeyInfo>,
    stored: Seq<Seq<Datum>>,
    added: Seq<Seq<Datum>>,
    p: int,
    q: int,
)
    requires
        0 < p <= stored.len(),
        0 <= q <= added.len(),
        added.len() > 0,
        entries_relation(info, stored[0], added[0]) != Relation::Greater,
        splits(info, stored.skip(1), added, p - 1, q),
    ensures
        splits(info, stored, added, p, q),
{
    reveal(splits);
    let rest = stored.skip(1);
    let all = merge(info, stored, added);
    let m = merge(info, rest, added);
    assert(all =~= m.insert(0, stored[0]));
    assert(rest.skip(p - 1) =~= stored.skip(p));
    assert(all.skip(p + q) =~= m.skip(p - 1 + q));
    assert(stored.take(p).skip(1) =~= rest.take(p - 1));
    assert(stored.take(p)[0] == stored[0]);
    if q > 0 {
        assert(added.take(q)[0] == added[0]);
    } else {
        assert(added.take(q) =~= Seq::<Seq<Datum>>::empty());
        assert(merge(info, rest.take(p - 1), added.take(q)) =~= rest.take(p - 1));
    }
    assert(all.take(p + q) =~= m.take(p - 1 + q).insert(0, stored[0]));
    assert(all.take(p + q) =~= merge(info, stored.take(p), added.take(q)));
}

proof fn lemma_splits_added(
    info: Seq<KeyInfo>,
    stored: Seq<Seq<Datum>>,
    added: Seq<Seq<Datum>>,
    p: int,
    q: int,
)
    requires
        0 <= p <= stored.len(),
        0 < q <= added.len(),
        stored.len() > 0,
        entries_relation(info, stored[0], added[0]) == Relation::Greater,
        splits(info, stored, added.skip(1), p, q - 1),
    ensures
        splits(info, stored, added, p, q),
{
    reveal(splits);
    let rest = added.skip(1);
    let all = merge(info, stored, added);
    let m = merge(info, stored, rest);
    assert(all =~= m.insert(0, added[0]));
    assert(rest.skip(q - 1) =~= added.skip(q));
    assert(all.skip(p + q) =~= m.skip(p + q - 1));
    assert(added.take(q).skip(1) =~= rest.take(q - 1));
    assert(added.take(q)[0] == added[0]);
    if p > 0 {
        assert(stored.take(p)[0] == stored[0]);
    } else {
        assert(stored.take(p) =~= Seq::<Seq<Datum>>::empty());
    }
    assert(all.take(p + q) =~= m.take(p + q - 1).insert(0, added[0]));
    assert(all.take(p + q) =~= merge(info, stored.take(p), added.take(q)));
}

/// A key parts a merge where it parts both sides.
proof fn lemma_merge_parted(
    info: Seq<KeyInfo>,
    stored: Seq<Seq<Datum>>,
    added: Seq<Seq<Datum>>,
    len: nat,
    key: Seq<Datum>,
    op: SeekOp,
    p: int,
    q: int,
)
    requires
        even(stored, len),
        even(added, len),
        entries_in_order(info, stored),
        entries_in_order(info, added),
        key.len() <= usize::MAX,
        parts(info, stored, key, key.len() as int, op, p),
        parts(info, added, key, key.len() as int, op, q),
    ensures
        splits(info, stored, added, p, q),
        parts(info, merge(info, stored, added), key, key.len() as int, op, p + q),
    decreases stored.len() + added.len(),
{
    let n = key.len() as int;
    let all = merge(info, stored, added);
    if stored.len() == 0 || added.len() == 0 {
        lemma_splits_at_ends(info, stored, added, p, q);
    } else if entries_relation(info, stored[0], added[0]) != Relation::Greater {
        lemma_skip(info, stored, len);
        if p == 0 {
            if q > 0 {
                assert(comes_before(info, added[0], key, n, op));
                lemma_comes_before(info, stored[0], added[0], key, op);
            }
            lemma_splits_at_ends(info, stored, added, p, q);
            assert(all[0] == stored[0]);
        } else {
            lemma_parts_skip(info, stored, key, op, p);
            lemma_merge_parted(info, stored.skip(1), added, len, key, op, p - 1, q);
            lemma_splits_stored(info, stored, added, p, q);
            lemma_parts_insert(
                info,
                merge(info, stored.skip(1), added),
                stored[0],
                key,
                op,
                p - 1 + q,
            );
        }
    } else {
        lemma_skip(info, added, len);
        lemma_entries_chain(info, stored[0], added[0], added[0]);
        if q == 0 {
            if p > 0 {
                assert(comes_before(info, stored[0], key, n, op));
                lemma_comes_before(info, added[0], stored[0], key, op);
            }
            lemma_splits_at_ends(info, stored, added, p, q);
            assert(all[0] == added[0]);
        } else {
            lemma_parts_skip(info, added, key, op, q);
            lemma_merge_parted(info, stored, added.skip(1), len, key, op, p, q - 1);
            lemma_splits_added(info, stored, added, p, q);
            lemma_parts_insert(
                info,
                merge(info, stored, added.skip(1)),
                added[0],
                key,
                op,
                p + q - 1,
            );
        }
    }
}

proof fn lemma_parts_skip(
    info: Seq<KeyInfo>,
    s: Seq<Seq<Datum>>,
    key: Seq<Datum>,
    op: SeekOp,
    p: int,
)
    requires
        parts(info, s, key, key.len() as int, op, p),
        p > 0,
    ensures
        parts(info, s.skip(1), key, key.len() as int, op, p - 1),
        comes_before(info, s[0], key, key.len() as int, op),
{
    let t = s.skip(1);
    assert forall|i: int| 0 <= i < p - 1 implies comes_before(
        info,
        #[trigger] t[i],
        key,
        key.len() as int,
        op,
    ) by {
        assert(t[i] == s[i + 1]);
    }
    if p - 1 < t.len() {
        assert(t[p - 1] == s[p]);
    }
}

proof fn lemma_unparted_len(info: Seq<KeyInfo>, stored: Seq<Seq<Datum>>, added: Seq<Seq<Datum>>)
    ensures
        merge(info, stored, added).len() == stored.len() + added.len(),
    decreases stored.len() + added.len(),
{
    if stored.len() > 0 && added.len() > 0 {
        lemma_unparted_len(info, stored.skip(1), added);
        lemma_unparted_len(info, stored, added.skip(1));
    }
}

proof fn lemma_parts_insert(
    info: Seq<KeyInfo>,
    m: Seq<Seq<Datum>>,
    h: Seq<Datum>,
    key: Seq<Datum>,
    op: SeekOp,
    p: int,
)
    requires
        parts(info, m, key, key.len() as int, op, p),
        comes_before(info, h, key, key.len() as int, op),
    ensures
        parts(info, m.insert(0, h), key, key.len() as int, op, p + 1),
{
    let t = m.insert(0, h);
    assert forall|i: int| 0 <= i < p + 1 implies comes_before(
        info,
        #[trigger] t[i],
        key,
        key.len() as int,
        op,
    ) by {
        if i > 0 {
            assert(t[i] == m[i - 1]);
        }
    }
    if p + 1 < t.len() {
        assert(t[p + 1] == m[p]);
    }
}

/// A key parts what is kept of entries where it parts the entries.
proof fn lemma_kept_parted(
    m: Merging,
    entries: Seq<Seq<Datum>>,
    len: nat,
    key: Seq<Datum>,
    op: SeekOp,
    p: int,
)
    requires
        even(entries, len),
        entries_in_order(m.info, entries),
        key.len() <= usize::MAX,
        parts(m.info, entries, key, key.len() as int, op, p),
    ensures
        ({
            let k = kept(m, entries);
            let before = kept(m, up_to(entries, p - 1));
            let q = before.len() as int;
            &&& parts(m.info, k, key, key.len() as int, op, q)
            &&& k.take(q) == before
            &&& k.skip(q) == kept(m, onward(entries, p))
        }),
{
    let n = key.len() as int;
    let front = up_to(entries, p - 1);
    let rest = onward(entries, p);
    assert(entries =~= front + rest);
    Seq::filter_distributes_over_add(front, rest, stays(m));
    let k = kept(m, entries);
    let before = kept(m, front);
    let after = kept(m, rest);
    let q = before.len() as int;
    assert(k.take(q) =~= before);
    assert(k.skip(q) =~= after);
    lemma_kept_within(m, front);
    lemma_kept_within(m, rest);
    assert forall|i: int| 0 <= i < q implies comes_before(m.info, #[trigger] k[i], key, n, op) by {
        assert(k[i] == before[i]);
        let j = choose|j: int| 0 <= j < front.len() && front[j] == before[i];
        assert(entries[j] == k[i]);
    }
    if q < k.len() {
        assert(k[q] == after[0]);
        let j = choose|j: int| 0 <= j < rest.len() && rest[j] == after[0];
        assert(entries[p + j] == k[q]);
        lemma_parted(m.info, entries, len, key, op, p, p + j);
    }
}

/// Whether an entry begins with a key.
pub open spec fn begins_with_key(info: Seq<KeyInfo>, e: Seq<Datum>, key: Seq<Datum>) -> bool {
    entry_relation(info, e, key, key.len() as int) == Relation::Equal
}

/// Whether only an entry that begins with the key is looked for.
pub open spec fn exact(op: SeekOp) -> bool {
    op == (SeekOp::GE { eq_only: true }) || op == (SeekOp::LE { eq_only: true })
}

/// Whether a stored index has been searched for a key: it stands at the entry that was looked for, or
/// one short of it, or there is none.
pub open spec fn searched(
    info: Seq<KeyInfo>,
    stored: StoredIndex,
    key: Seq<Datum>,
    op: SeekOp,
    p: int,
    r: SeekResult,
) -> bool {
    let want = if op.is_forward() {
        p
    } else {
        p - 1
    };
    &&& parts(info, stored.entries, key, key.len() as int, op, p)
    &&& match r {
        SeekResult::Found => stored.at == want && 0 <= want < stored.entries.len(),
        SeekResult::TryAdvance => stored.at == (if op.is_forward() {
            want - 1
        } else {
            want + 1
        }),
        SeekResult::NotFound => {
            ||| !(0 <= want < stored.entries.len())
            ||| exact(op) && forall|i: int|
                0 <= i < stored.entries.len() ==> !begins_with_key(
                    info,
                    #[trigger] stored.entries[i],
                    key,
                )
        },
    }
}

/// A cursor that has searched, the stored index having been searched for it.
pub open spec fn sought_by(
    m: Merging,
    s: Standing,
    stored: StoredIndex,
    op: SeekOp,
    add_pos: int,
    r: SeekResult,
) -> Standing {
    whole_move(
        m,
        started(s, BtreeStep::Seeking { op }, add_pos),
        op.is_forward(),
        stored,
        IndexEventView::Sought(r),
    ).0
}

/// The entry that a search has come to where the next stored entry is known.
proof fn lemma_sought(
    m: Merging,
    s: Standing,
    stored: StoredIndex,
    op: SeekOp,
    p: int,
    q: int,
    r: SeekResult,
    key: Seq<Datum>,
)
    requires
        searched(m.info, stored, key, op, p, r),
        0 <= q <= m.additions.len(),
    ensures
        ({
            let side = if m.ignored || r is NotFound {
                None
            } else if op.is_forward() {
                nth(kept(m, onward(stored.entries, p)), 0)
            } else {
                last_of(kept(m, up_to(stored.entries, p - 1)))
            };
            let s1 = started(s, BtreeStep::Seeking { op }, q);
            sought_by(m, s, stored, op, q, r) == took(
                m,
                Standing { side: Side { step: BtreeStep::Idle, pending: side }, ..s1 },
                op.is_forward(),
            )
        }),
{
    let forward = op.is_forward();
    let s1 = started(s, BtreeStep::Seeking { op }, q);
    let event = IndexEventView::Sought(r);
    let n = went_on(m, s1, forward, event);
    let w = whole_move(m, s1, forward, stored, event);
    if !m.ignored && !(r is NotFound) {
        let there = StoredIndex {
            at: if forward {
                p
            } else {
                p - 1
            },
            ..stored
        };
        if r is Found {
            assert(n.1 == Some(IndexAction::Read));
            assert(there =~= stored);
            assert(w == whole_move(m, n.0, forward, there, IndexEventView::Record(there.here())));
            if forward {
                lemma_read_forward(m, n.0, there);
            } else {
                lemma_read_backward(m, n.0, there);
            }
        } else {
            let n2 = went_on(m, n.0, forward, IndexEventView::Moved);
            assert(w == whole_move(m, n.0, forward, there, IndexEventView::Moved));
            assert(n2.1 == Some(IndexAction::Read));
            assert(w == whole_move(m, n2.0, forward, there, IndexEventView::Record(there.here())));
            if forward {
                lemma_read_forward(m, n2.0, there);
            } else {
                lemma_read_backward(m, n2.0, there);
            }
        }
    }
}

/// A search forward comes to the first visible entry that does not come before the key. Where only an
/// entry that begins with the key is looked for, it comes to the first such entry if there is one, and
/// otherwise to none or to one that does not begin with the key.
pub proof fn law_a_search_forward_finds_the_first(
    m: Merging,
    s: Standing,
    stored: StoredIndex,
    len: nat,
    key: Seq<Datum>,
    op: SeekOp,
    p: int,
    q: int,
    r: SeekResult,
) -> (at: int)
    requires
        op.is_forward(),
        key.len() <= usize::MAX,
        even(stored.entries, len),
        even(m.additions, len),
        entries_in_order(m.info, stored.entries),
        entries_in_order(m.info, m.additions),
        searched(m.info, stored, key, op, p, r),
        parts(m.info, m.additions, key, key.len() as int, op, q),
    ensures
        parts(m.info, visible(m, stored.entries), key, key.len() as int, op, at),
        ({
            let first = nth(visible(m, stored.entries), at);
            let current = sought_by(m, s, stored, op, q, r).current;
            if !exact(op) || (first matches Some(e) && begins_with_key(m.info, e, key)) {
                current == first
            } else {
                current matches Some(e) ==> !begins_with_key(m.info, e, key)
            }
        }),
{
    let n = key.len() as int;
    let taking = taking_part(m, stored.entries);
    lemma_kept(m, stored.entries, len, Seq::empty());
    lemma_kept_parted(m, stored.entries, len, key, op, p);
    lemma_sought(m, s, stored, op, p, q, r, key);
    let k = if m.ignored {
        0
    } else {
        kept(m, up_to(stored.entries, p - 1)).len() as int
    };
    lemma_merge_parted(m.info, taking, m.additions, len, key, op, k, q);
    reveal(splits);
    let all = visible(m, stored.entries);
    let left = taking.skip(k);
    let added = m.additions.skip(q);
    let c = merge(m.info, left, added);
    assert(all.skip(k + q) == c);
    if c.len() > 0 {
        assert(c[0] == all[k + q]);
    } else {
        lemma_unparted_len(m.info, taking, m.additions);
        lemma_unparted_len(m.info, left, added);
    }
    let s1 = started(s, BtreeStep::Seeking { op }, q);
    let idle = Standing {
        side: Side { step: BtreeStep::Idle, pending: nth(left, 0) },
        ..s1
    };
    lemma_took_forward(m, idle, left);
    if r is NotFound && !m.ignored {
        if p >= stored.entries.len() {
            reveal(Seq::filter);
            assert(left =~= Seq::<Seq<Datum>>::empty());
        } else {
            let none = Standing { side: Side { step: BtreeStep::Idle, pending: None }, ..s1 };
            lemma_took_forward(m, none, Seq::empty());
            if added.len() > 0 {
                assert(added[0] == m.additions[q]);
            }
            lemma_kept_within(m, stored.entries);
            if left.len() > 0 {
                assert(left[0] == taking[k]);
                assert(stored.entries.contains(taking[k]));
                assert(!begins_with_key(m.info, left[0], key));
                assert(!comes_before(m.info, taking[k], key, n, op));
                if added.len() > 0 && begins_with_key(m.info, added[0], key) && entries_relation(
                    m.info,
                    left[0],
                    added[0],
                ) != Relation::Greater {
                    lemma_comes_before(m.info, left[0], added[0], key, SeekOp::GT);
                }
            }
        }
    }
    k + q
}

/// A search backward comes to the last entry that the search admits, of those that a walk backward
/// shows; it compares equal to the last such visible entry. Where only an entry that begins with the
/// key is looked for, it comes to the last such entry if there is one, and otherwise to none or to one
/// that does not begin with the key.
pub proof fn law_a_search_backward_finds_the_last(
    m: Merging,
    s: Standing,
    stored: StoredIndex,
    len: nat,
    key: Seq<Datum>,
    op: SeekOp,
    p: int,
    q: int,
    r: SeekResult,
) -> (at: int)
    requires
        !op.is_forward(),
        key.len() <= usize::MAX,
        even(stored.entries, len),
        even(m.additions, len),
        entries_in_order(m.info, stored.entries),
        entries_in_order(m.info, m.additions),
        searched(m.info, stored, key, op, p, r),
        parts(m.info, m.additions, key, key.len() as int, op, q),
    ensures
        parts(m.info, visible(m, stored.entries), key, key.len() as int, op, at),
        parts(m.info, shown_backward(m, stored.entries), key, key.len() as int, op, at),
        ({
            let last = nth(shown_backward(m, stored.entries), at - 1);
            let current = sought_by(m, s, stored, op, q, r).current;
            if !exact(op) || (last matches Some(e) && begins_with_key(m.info, e, key)) {
                current == last
            } else {
                current matches Some(e) ==> !begins_with_key(m.info, e, key)
            }
        }),
        match (
            nth(shown_backward(m, stored.entries), at - 1),
            nth(visible(m, stored.entries), at - 1),
        ) {
            (Some(a), Some(b)) => entries_relation(m.info, a, b) == Relation::Equal,
            (None, None) => true,
            _ => false,
        },
{
    let n = key.len() as int;
    let taking = taking_part(m, stored.entries);
    lemma_kept(m, stored.entries, len, Seq::empty());
    lemma_kept_parted(m, stored.entries, len, key, op, p);
    lemma_sought(m, s, stored, op, p, q, r, key);
    let k = if m.ignored {
        0
    } else {
        kept(m, up_to(stored.entries, p - 1)).len() as int
    };
    lemma_merge_parted(m.info, taking, m.additions, len, key, op, k, q);
    lemma_merge_parted(m.info, m.additions, taking, len, key, op, q, k);
    lemma_merge_turned(m.info, m.additions, taking, len);
    reveal(splits);
    let all = shown_backward(m, stored.entries);
    let left = taking.take(k);
    let added = m.additions.take(q);
    let c = merge(m.info, added, left);
    assert(all.take(q + k) == c);
    if c.len() > 0 {
        assert(c.last() == all[q + k - 1]);
    }
    assert(mergeable(m.info, m.additions, taking, len)) by {
        reveal(mergeable);
    }
    lemma_mergeable_part(m.info, m.additions, taking, len, 0, q, 0, k);
    assert(taking.subrange(0, k) =~= left);
    assert(m.additions.subrange(0, q) =~= added);
    let s1 = started(s, BtreeStep::Seeking { op }, q);
    let idle = Standing {
        side: Side { step: BtreeStep::Idle, pending: last_of(left) },
        ..s1
    };
    lemma_took_backward(m, idle, left, len);
    if r is NotFound && !m.ignored {
        if p - 1 < 0 {
            reveal(Seq::filter);
            assert(left =~= Seq::<Seq<Datum>>::empty());
        } else {
            let none = Standing { side: Side { step: BtreeStep::Idle, pending: None }, ..s1 };
            lemma_mergeable_part(m.info, added, left, len, 0, q, 0, 0);
            assert(left.subrange(0, 0) =~= Seq::<Seq<Datum>>::empty());
            assert(added.subrange(0, q) =~= added);
            lemma_took_backward(m, none, Seq::empty(), len);
            lemma_kept_within(m, stored.entries);
            if left.len() > 0 {
                assert(left.last() == taking[k - 1]);
                assert(stored.entries.contains(taking[k - 1]));
                assert(!begins_with_key(m.info, left.last(), key));
                assert(comes_before(m.info, taking[k - 1], key, n, op));
                if added.len() > 0 {
                    lemma_ends(m.info, added, left, len);
                    assert(added.last() == m.additions[q - 1]);
                    if begins_with_key(m.info, added.last(), key) && entries_relation(
                        m.info,
                        left.last(),
                        added.last(),
                    ) != Relation::Less {
                        lemma_entries_chain(m.info, left.last(), added.last(), added.last());
                        if comes_before(m.info, left.last(), key, n, SeekOp::LT) {
                            lemma_comes_before(m.info, added.last(), left.last(), key, SeekOp::LT);
                        }
                    }
                }
            }
        }
    }
    k + q
}

/// A search parts the entries of an index in two by its operator, in the columns of the key: where it
/// looks for the first entry that is no less than the key, or for the last that is less, those before
/// are the lesser ones; where it looks for the first that is greater, or for the last that is no
/// greater, those before are the lesser and the equal ones.
pub proof fn law_a_search_parts_the_entries_by_its_operator(
    info: Seq<KeyInfo>,
    entries: Seq<Seq<Datum>>,
    len: nat,
    key: Seq<Datum>,
    op: SeekOp,
    at: int,
    i: int,
)
    requires
        key.len() <= usize::MAX,
        even(entries, len),
        entries_in_order(info, entries),
        parts(info, entries, key, key.len() as int, op, at),
        0 <= i < entries.len(),
    ensures
        ({
            let r = entry_relation(info, entries[i], key, key.len() as int);
            match op {
                SeekOp::GE { .. } => i < at <==> r == Relation::Less,
                SeekOp::LT => i < at <==> r == Relation::Less,
                SeekOp::GT => i < at <==> r == Relation::Less || r == Relation::Equal,
                SeekOp::LE { .. } => i < at <==> r == Relation::Less || r == Relation::Equal,
            }
        }),
{
    let n = key.len() as int;
    if i < at {
        assert(comes_before(info, entries[i], key, n, op));
    } else {
        lemma_parted(info, entries, len, key, op, at, i);
    }
}

} // verus!
