//! Views that read other views.

use vstd::prelude::*;

use crate::deltas::{pairs_map, DeltaSet};
use crate::names::NameIndex;
use crate::text::texts;
use crate::zset::{Change, Delta};

verus! {

/// A materialized view and the tables and views that it reads.
#[derive(Debug)]
pub struct ViewReads {
    pub name: String,
    pub reads: Vec<String>,
}

#[verifier::ext_equal]
pub struct ViewReadsView {
    pub name: Seq<char>,
    pub reads: Seq<Seq<char>>,
}

impl View for ViewReads {
    type V = ViewReadsView;

    open spec fn view(&self) -> ViewReadsView {
        ViewReadsView { name: self.name@, reads: texts(self.reads@) }
    }
}

/// The materialized views of a database.
#[derive(Debug)]
pub struct ViewCatalog {
    pub views: Vec<ViewReads>,
    pub index: NameIndex,
}

/// Views and their positions by name.
#[verifier::ext_equal]
pub struct CatalogView {
    pub views: Seq<ViewReadsView>,
    pub index: Map<Seq<char>, usize>,
}

impl View for ViewCatalog {
    type V = CatalogView;

    open spec fn view(&self) -> CatalogView {
        CatalogView { views: self.views@.map_values(|v: ViewReads| v@), index: self.index@ }
    }
}

impl CatalogView {
    /// Names stand for views, each view for its own.
    pub open spec fn wf(&self) -> bool {
        &&& forall|n: Seq<char>| #[trigger]
            self.index.dom().contains(n) ==> self.index[n] < self.views.len()
                && self.views[self.index[n] as int].name == n
    }

    /// The position of a view.
    pub open spec fn find(&self, name: Seq<char>) -> Option<int> {
        if self.index.dom().contains(name) {
            Some(self.index[name] as int)
        } else {
            None
        }
    }
}

impl ViewCatalog {
    /// No views.
    pub fn new() -> (r: Self)
        ensures
            r@.wf(),
            r@.views.len() == 0,
            r@.index == Map::<Seq<char>, usize>::empty(),
    {
        ViewCatalog { views: Vec::new(), index: NameIndex::new() }
    }

    /// Adds a view. One of the same name is replaced by it.
    pub fn add(&mut self, view: ViewReads)
        requires
            old(self)@.wf(),
        ensures
            final(self)@.wf(),
            final(self)@.views == old(self)@.views.push(view@),
            final(self)@.index == old(self)@.index.insert(
                view@.name,
                old(self)@.views.len() as usize,
            ),
    {
        let ghost before = self@;
        let ghost v = view@;
        let at: usize = self.views.len();
        self.index.insert(view.name.clone(), at);
        self.views.push(view);
        assert(self@.views =~= before.views.push(v));
        assert forall|n: Seq<char>| #[trigger] self@.index.dom().contains(n) implies self@.index[n]
            < self@.views.len() && self@.views[self@.index[n] as int].name == n by {
            if n != v.name {
                assert(before.index.dom().contains(n));
            }
        }
    }
}

/// How far views have been gone through: which have been come to, and which have been listed.
#[verifier::ext_equal]
pub struct Visit {
    pub visited: Seq<bool>,
    pub order: Seq<int>,
}

/// How many views have not been come to.
pub open spec fn unvisited(visited: Seq<bool>) -> nat
    decreases visited.len(),
{
    if visited.len() == 0 {
        0
    } else {
        unvisited(visited.drop_last()) + (if visited.last() {
            0nat
        } else {
            1
        })
    }
}

proof fn lemma_unvisited_update(visited: Seq<bool>, i: int)
    requires
        0 <= i < visited.len(),
        !visited[i],
    ensures
        unvisited(visited.update(i, true)) == unvisited(visited) - 1,
    decreases visited.len(),
{
    let after = visited.update(i, true);
    if i == visited.len() - 1 {
        assert(after.drop_last() =~= visited.drop_last());
    } else {
        lemma_unvisited_update(visited.drop_last(), i);
        assert(after.drop_last() =~= visited.drop_last().update(i, true));
    }
}

/// Goes to a view: what it reads first, then itself, unless it has been come to before.
pub open spec fn gone_to(cat: CatalogView, at: int, v: Visit) -> Visit
    decreases unvisited(v.visited), 0nat,
{
    if at < 0 || at >= v.visited.len() || v.visited[at] {
        v
    } else {
        let marked = Visit { visited: v.visited.update(at, true), order: v.order };
        if unvisited(marked.visited) < unvisited(v.visited) {
            let below = gone_through(cat, cat.views[at].reads, marked);
            Visit { visited: below.visited, order: below.order.push(at) }
        } else {
            v
        }
    }
}

/// Goes to the views among some names, from first to last.
pub open spec fn gone_through(cat: CatalogView, names: Seq<Seq<char>>, v: Visit) -> Visit
    decreases unvisited(v.visited), names.len(),
{
    if names.len() == 0 {
        v
    } else {
        let before = gone_through(cat, names.drop_last(), v);
        match cat.find(names.last()) {
            None => before,
            Some(at) => if unvisited(before.visited) <= unvisited(v.visited) {
                gone_to(cat, at, before)
            } else {
                before
            },
        }
    }
}

proof fn lemma_gone_to(cat: CatalogView, at: int, v: Visit)
    ensures
        gone_to(cat, at, v).visited.len() == v.visited.len(),
        unvisited(gone_to(cat, at, v).visited) <= unvisited(v.visited),
    decreases unvisited(v.visited), 0nat,
{
    if 0 <= at < v.visited.len() && !v.visited[at] {
        lemma_unvisited_update(v.visited, at);
        let marked = Visit { visited: v.visited.update(at, true), order: v.order };
        lemma_gone_through(cat, cat.views[at].reads, marked);
    }
}

proof fn lemma_gone_through(cat: CatalogView, names: Seq<Seq<char>>, v: Visit)
    ensures
        gone_through(cat, names, v).visited.len() == v.visited.len(),
        unvisited(gone_through(cat, names, v).visited) <= unvisited(v.visited),
    decreases unvisited(v.visited), names.len(),
{
    if names.len() > 0 {
        lemma_gone_through(cat, names.drop_last(), v);
        let before = gone_through(cat, names.drop_last(), v);
        match cat.find(names.last()) {
            None => {},
            Some(at) => {
                lemma_gone_to(cat, at, before);
            },
        }
    }
}

fn all_false(n: usize) -> (r: Vec<bool>)
    ensures
        r@ == Seq::new(n as nat, |i: int| false),
{
    let mut out: Vec<bool> = Vec::new();
    let mut i: usize = 0;
    while i < n
        invariant
            i <= n,
            out@.len() == i,
            forall|j: int| 0 <= j < i ==> !(#[trigger] out@[j]),
        decreases n - i,
    {
        out.push(false);
        i += 1;
    }
    assert(out@ =~= Seq::new(n as nat, |i: int| false));
    out
}

spec fn state_of(visited: Seq<bool>, order: Seq<usize>) -> Visit {
    Visit { visited, order: order.map_values(|i: usize| i as int) }
}

/// Goes to a view.
fn dfs_upstream(cat: &ViewCatalog, at: usize, visited: &mut Vec<bool>, order: &mut Vec<usize>)
    requires
        cat@.wf(),
        at < cat@.views.len(),
        old(visited)@.len() == cat@.views.len(),
    ensures
        final(visited)@.len() == cat@.views.len(),
        state_of(final(visited)@, final(order)@) == gone_to(
            cat@,
            at as int,
            state_of(old(visited)@, old(order)@),
        ),
        unvisited(final(visited)@) <= unvisited(old(visited)@),
    decreases unvisited(old(visited)@), 0nat,
{
    if visited[at] {
        return;
    }
    proof {
        lemma_unvisited_update(visited@, at as int);
    }
    visited.set(at, true);
    let view = &cat.views[at];
    assert(cat@.views[at as int] == view@);
    dfs_names(cat, &view.reads, visited, order);
    let ghost before = order@;
    order.push(at);
    assert(state_of(visited@, order@).order =~= state_of(visited@, before).order.push(at as int));
}

/// Goes to the views among some names.
fn dfs_names(
    cat: &ViewCatalog,
    names: &Vec<String>,
    visited: &mut Vec<bool>,
    order: &mut Vec<usize>,
)
    requires
        cat@.wf(),
        old(visited)@.len() == cat@.views.len(),
    ensures
        final(visited)@.len() == cat@.views.len(),
        state_of(final(visited)@, final(order)@) == gone_through(
            cat@,
            texts(names@),
            state_of(old(visited)@, old(order)@),
        ),
        unvisited(final(visited)@) <= unvisited(old(visited)@),
    decreases unvisited(old(visited)@), 1nat,
{
    let ghost list = texts(names@);
    let ghost start = state_of(visited@, order@);
    let mut i: usize = 0;
    assert(list.take(0) =~= Seq::<Seq<char>>::empty());
    while i < names.len()
        invariant
            i <= names.len(),
            cat@.wf(),
            list == texts(names@),
            start == state_of(old(visited)@, old(order)@),
            visited@.len() == cat@.views.len(),
            state_of(visited@, order@) == gone_through(cat@, list.take(i as int), start),
            unvisited(visited@) <= unvisited(old(visited)@),
        decreases names.len() - i,
    {
        proof {
            assert(list.take(i + 1).drop_last() =~= list.take(i as int));
            assert(list.take(i + 1).last() == names@[i as int]@);
            lemma_gone_through(cat@, list.take(i as int), start);
        }
        match cat.index.get(names[i].as_str()) {
            Some(at) => {
                assert(cat@.index.dom().contains(names@[i as int]@));
                dfs_upstream(cat, at, visited, order);
            },
            None => {},
        }
        i += 1;
    }
    assert(list.take(i as int) =~= list);
}

/// Nothing has been gone through.
pub open spec fn untouched(n: nat) -> Visit {
    Visit { visited: Seq::new(n, |i: int| false), order: Seq::empty() }
}

/// The views that a view reads, through other views too, from the deepest up.
pub open spec fn upstream(cat: CatalogView, reads: Seq<Seq<char>>) -> Seq<int> {
    gone_through(cat, reads, untouched(cat.views.len())).order
}

/// Lists the views that a view reads, through other views too, from the deepest up, by their
/// positions.
pub fn collect_upstream_views(cat: &ViewCatalog, direct_reads: &Vec<String>) -> (r: Vec<usize>)
    requires
        cat@.wf(),
    ensures
        r@.map_values(|i: usize| i as int) == upstream(cat@, texts(direct_reads@)),
{
    let mut visited = all_false(cat.views.len());
    let mut order: Vec<usize> = Vec::new();
    proof {
        assert(state_of(visited@, order@) =~= untouched(cat@.views.len()));
    }
    dfs_names(cat, direct_reads, &mut visited, &mut order);
    order
}

// The order is that of dependence.

/// Whether views do not read each other in a circle: every view has a rank above those it reads.
pub open spec fn ranked_by(cat: CatalogView, rank: spec_fn(int) -> int) -> bool {
    forall|v: int, k: int|
        0 <= v < cat.views.len() && 0 <= k < cat.views[v].reads.len() ==> (cat.find(
            #[trigger] cat.views[v].reads[k],
        ) matches Some(u) ==> rank(u) < rank(v))
}

/// Whether all that a listed view reads is listed before it.
pub open spec fn dependencies_first(cat: CatalogView, order: Seq<int>) -> bool {
    forall|i: int, k: int|
        0 <= i < order.len() && 0 <= k < cat.views[order[i]].reads.len() ==> (cat.find(
            #[trigger] cat.views[order[i]].reads[k],
        ) matches Some(u) ==> order.take(i).contains(u))
}

/// Whether a visit is sound: what is listed has been come to and is listed once, with all that it
/// reads before it; what has been come to and is not listed yet ranks no lower than `floor`.
spec fn sound(cat: CatalogView, rank: spec_fn(int) -> int, floor: int, v: Visit) -> bool {
    &&& v.visited.len() == cat.views.len()
    &&& forall|i: int|
        0 <= i < v.order.len() ==> 0 <= #[trigger] v.order[i] < v.visited.len()
            && v.visited[v.order[i]]
    &&& forall|i: int, j: int|
        0 <= i < j < v.order.len() ==> #[trigger] v.order[i] != #[trigger] v.order[j]
    &&& dependencies_first(cat, v.order)
    &&& forall|p: int|
        0 <= p < v.visited.len() && #[trigger] v.visited[p] && !v.order.contains(p) ==> rank(p)
            >= floor
}

/// Whether what is listed in one visit is listed in another, in the same place.
spec fn extends(a: Visit, b: Visit) -> bool {
    &&& a.order.len() <= b.order.len()
    &&& forall|i: int| 0 <= i < a.order.len() ==> #[trigger] a.order[i] == b.order[i]
    &&& forall|p: int| 0 <= p < a.visited.len() ==> (#[trigger] a.visited[p] ==> b.visited[p])
    &&& forall|p: int|
        0 <= p < a.visited.len() ==> (#[trigger] b.visited[p] && !b.order.contains(p)
            ==> a.visited[p] && !a.order.contains(p))
}

proof fn lemma_visit_sound(
    cat: CatalogView,
    rank: spec_fn(int) -> int,
    floor: int,
    at: int,
    v: Visit,
)
    requires
        cat.wf(),
        ranked_by(cat, rank),
        sound(cat, rank, floor, v),
        0 <= at < cat.views.len(),
        rank(at) < floor,
    ensures
        sound(cat, rank, floor, gone_to(cat, at, v)),
        extends(v, gone_to(cat, at, v)),
        gone_to(cat, at, v).order.contains(at),
    decreases unvisited(v.visited), 0nat,
{
    if v.visited[at] {
        assert(v.order.contains(at));
    } else {
        lemma_unvisited_update(v.visited, at);
        let marked = Visit { visited: v.visited.update(at, true), order: v.order };
        assert(!v.order.contains(at)) by {
            if v.order.contains(at) {
                let i = choose|i: int| 0 <= i < v.order.len() && v.order[i] == at;
                assert(v.visited[v.order[i]]);
            }
        }
        assert(sound(cat, rank, rank(at), marked)) by {
            assert forall|i: int| 0 <= i < marked.order.len() implies 0
                <= #[trigger] marked.order[i] < marked.visited.len()
                && marked.visited[marked.order[i]] by {
                assert(v.visited[v.order[i]]);
            }
            assert forall|p: int|
                0 <= p < marked.visited.len() && #[trigger] marked.visited[p]
                    && !marked.order.contains(p) implies rank(p) >= rank(at) by {
                if p != at {
                    assert(v.visited[p]);
                }
            }
        }
        let reads = cat.views[at].reads;
        assert forall|k: int| 0 <= k < reads.len() implies (cat.find(
            #[trigger] reads[k],
        ) matches Some(u) ==> rank(u) < rank(at)) by {
            assert(cat.views[at].reads[k] == reads[k]);
        }
        lemma_names_sound(cat, rank, rank(at), reads, marked);
        let below = gone_through(cat, reads, marked);
        let done = gone_to(cat, at, v);
        assert(done == Visit { visited: below.visited, order: below.order.push(at) });
        assert(below.visited[at]) by {
            assert(marked.visited[at]);
        }
        assert(!below.order.contains(at)) by {
            if below.order.contains(at) {
                // Everything listed below was come to there, and the view had been come to.
                let i = choose|i: int| 0 <= i < below.order.len() && below.order[i] == at;
                lemma_not_listed_again(cat, reads, marked, at);
            }
        }
        assert(dependencies_first(cat, done.order)) by {
            assert forall|i: int, k: int|
                0 <= i < done.order.len() && 0 <= k < cat.views[done.order[i]].reads.len() implies (
            cat.find(#[trigger] cat.views[done.order[i]].reads[k]) matches Some(u)
                ==> done.order.take(i).contains(u)) by {
                match cat.find(cat.views[done.order[i]].reads[k]) {
                    Some(u) => {
                        if i < below.order.len() {
                            assert(done.order[i] == below.order[i]);
                            assert(cat.find(cat.views[below.order[i]].reads[k]) == Some(u));
                            assert(below.order.take(i).contains(u));
                            assert(done.order.take(i) =~= below.order.take(i));
                        } else {
                            assert(done.order.take(i) =~= below.order);
                            assert(cat.find(reads[k]) == Some(u));
                            assert(below.order.contains(u));
                        }
                    },
                    None => {},
                }
            }
        }
        assert forall|i: int, j: int| 0 <= i < j < done.order.len() implies #[trigger] done.order[i]
            != #[trigger] done.order[j] by {
            assert(done.order[i] == below.order[i]);
            if j < below.order.len() {
                assert(done.order[j] == below.order[j]);
            }
        }
        assert forall|i: int| 0 <= i < done.order.len() implies 0 <= #[trigger] done.order[i]
            < done.visited.len() && done.visited[done.order[i]] by {
            if i < below.order.len() {
                assert(done.order[i] == below.order[i]);
            }
        }
        assert forall|p: int| 0 <= p < v.visited.len() implies (#[trigger] done.visited[p]
            && !done.order.contains(p) ==> v.visited[p] && !v.order.contains(p)) by {
            if done.visited[p] && !done.order.contains(p) {
                assert(!below.order.contains(p)) by {
                    if below.order.contains(p) {
                        let i = choose|i: int| 0 <= i < below.order.len() && below.order[i] == p;
                        assert(done.order[i] == p);
                    }
                }
                assert(done.order[below.order.len() as int] == at);
                assert(p != at);
                assert(below.visited[p]);
                assert(marked.visited[p]);
            }
        }
        assert forall|p: int|
            0 <= p < done.visited.len() && #[trigger] done.visited[p] && !done.order.contains(
                p,
            ) implies rank(p) >= floor by {
            assert(v.visited[p] && !v.order.contains(p));
        }
        assert forall|p: int| 0 <= p < v.visited.len() implies (#[trigger] v.visited[p]
            ==> done.visited[p]) by {
            if v.visited[p] {
                assert(marked.visited[p]);
            }
        }
        assert forall|i: int| 0 <= i < v.order.len() implies #[trigger] v.order[i]
            == done.order[i] by {
            assert(marked.order[i] == below.order[i]);
        }
        assert(done.order[below.order.len() as int] == at);
    }
}

proof fn lemma_names_sound(
    cat: CatalogView,
    rank: spec_fn(int) -> int,
    floor: int,
    names: Seq<Seq<char>>,
    v: Visit,
)
    requires
        cat.wf(),
        ranked_by(cat, rank),
        sound(cat, rank, floor, v),
        forall|k: int|
            0 <= k < names.len() ==> (cat.find(#[trigger] names[k]) matches Some(u) ==> rank(u)
                < floor),
    ensures
        sound(cat, rank, floor, gone_through(cat, names, v)),
        extends(v, gone_through(cat, names, v)),
        forall|k: int|
            0 <= k < names.len() ==> (cat.find(#[trigger] names[k]) matches Some(u)
                ==> gone_through(cat, names, v).order.contains(u)),
    decreases unvisited(v.visited), names.len(),
{
    if names.len() > 0 {
        let front = names.drop_last();
        assert forall|k: int| 0 <= k < front.len() implies (cat.find(
            #[trigger] front[k],
        ) matches Some(u) ==> rank(u) < floor) by {
            assert(front[k] == names[k]);
        }
        lemma_names_sound(cat, rank, floor, front, v);
        lemma_gone_through(cat, front, v);
        let before = gone_through(cat, front, v);
        let done = gone_through(cat, names, v);
        match cat.find(names.last()) {
            None => {
                assert forall|k: int| 0 <= k < names.len() implies (cat.find(
                    #[trigger] names[k],
                ) matches Some(u) ==> done.order.contains(u)) by {
                    if k < front.len() {
                        assert(front[k] == names[k]);
                    }
                }
            },
            Some(at) => {
                assert(cat.find(names[names.len() - 1]) == Some(at));
                assert(cat.index.dom().contains(names.last()));
                lemma_visit_sound(cat, rank, floor, at, before);
                lemma_extends(v, before, done);
                assert forall|k: int| 0 <= k < names.len() implies (cat.find(
                    #[trigger] names[k],
                ) matches Some(u) ==> done.order.contains(u)) by {
                    if k < front.len() {
                        assert(front[k] == names[k]);
                        match cat.find(names[k]) {
                            Some(u) => {
                                let i = choose|i: int|
                                    0 <= i < before.order.len() && before.order[i] == u;
                                assert(done.order[i] == u);
                            },
                            None => {},
                        }
                    }
                }
            },
        }
    }
}

proof fn lemma_extends(a: Visit, b: Visit, c: Visit)
    requires
        extends(a, b),
        extends(b, c),
        a.visited.len() == b.visited.len(),
    ensures
        extends(a, c),
{
    assert forall|i: int| 0 <= i < a.order.len() implies #[trigger] a.order[i] == c.order[i] by {
        assert(b.order[i] == c.order[i]);
    }
    assert forall|p: int| 0 <= p < a.visited.len() implies (#[trigger] a.visited[p]
        ==> c.visited[p]) by {
        if a.visited[p] {
            assert(b.visited[p]);
        }
    }
    assert forall|p: int| 0 <= p < a.visited.len() implies (#[trigger] c.visited[p]
        && !c.order.contains(p) ==> a.visited[p] && !a.order.contains(p)) by {
        if c.visited[p] && !c.order.contains(p) {
            assert(b.visited[p] && !b.order.contains(p));
        }
    }
}

/// A view that has been come to is not listed by what follows.
proof fn lemma_not_listed_again(cat: CatalogView, names: Seq<Seq<char>>, v: Visit, at: int)
    requires
        0 <= at < v.visited.len(),
        v.visited[at],
        !v.order.contains(at),
    ensures
        !gone_through(cat, names, v).order.contains(at),
        gone_through(cat, names, v).visited.len() == v.visited.len(),
        gone_through(cat, names, v).visited[at],
    decreases unvisited(v.visited), names.len(),
{
    if names.len() > 0 {
        lemma_not_listed_again(cat, names.drop_last(), v, at);
        let before = gone_through(cat, names.drop_last(), v);
        match cat.find(names.last()) {
            None => {},
            Some(u) => {
                if unvisited(before.visited) <= unvisited(v.visited) {
                    lemma_not_listed_by(cat, u, before, at);
                }
            },
        }
    }
}

proof fn lemma_not_listed_by(cat: CatalogView, u: int, v: Visit, at: int)
    requires
        0 <= at < v.visited.len(),
        v.visited[at],
        !v.order.contains(at),
    ensures
        !gone_to(cat, u, v).order.contains(at),
        gone_to(cat, u, v).visited.len() == v.visited.len(),
        gone_to(cat, u, v).visited[at],
    decreases unvisited(v.visited), 0nat,
{
    if 0 <= u < v.visited.len() && !v.visited[u] {
        let marked = Visit { visited: v.visited.update(u, true), order: v.order };
        if unvisited(marked.visited) < unvisited(v.visited) {
            lemma_not_listed_again(cat, cat.views[u].reads, marked, at);
            let below = gone_through(cat, cat.views[u].reads, marked);
            let done = gone_to(cat, u, v);
            if done.order.contains(at) {
                let i = choose|i: int| 0 <= i < done.order.len() && done.order[i] == at;
                if i < below.order.len() {
                    assert(below.order[i] == at);
                }
            }
        }
    }
}

/// Where views do not read each other in a circle, every view that is read, through other views
/// too, is listed once, after all that it reads itself.
pub proof fn law_upstream_views_come_deepest_first(
    cat: CatalogView,
    reads: Seq<Seq<char>>,
    rank: spec_fn(int) -> int,
)
    requires
        cat.wf(),
        ranked_by(cat, rank),
    ensures
        dependencies_first(cat, upstream(cat, reads)),
        forall|i: int, j: int|
            0 <= i < j < upstream(cat, reads).len() ==> #[trigger] upstream(cat, reads)[i]
                != #[trigger] upstream(cat, reads)[j],
        forall|k: int|
            0 <= k < reads.len() ==> (cat.find(#[trigger] reads[k]) matches Some(u) ==> upstream(
                cat,
                reads,
            ).contains(u)),
{
    let start = untouched(cat.views.len());
    let floor = top_rank(cat, reads, rank) + 1;
    lemma_top_rank(cat, reads, rank);
    assert(sound(cat, rank, floor, start));
    lemma_names_sound(cat, rank, floor, reads, start);
}

/// The highest rank among some names.
spec fn top_rank(cat: CatalogView, names: Seq<Seq<char>>, rank: spec_fn(int) -> int) -> int
    decreases names.len(),
{
    if names.len() == 0 {
        0
    } else {
        let before = top_rank(cat, names.drop_last(), rank);
        match cat.find(names.last()) {
            Some(u) => if rank(u) > before {
                rank(u)
            } else {
                before
            },
            None => before,
        }
    }
}

proof fn lemma_top_rank(cat: CatalogView, names: Seq<Seq<char>>, rank: spec_fn(int) -> int)
    ensures
        forall|k: int|
            0 <= k < names.len() ==> (cat.find(#[trigger] names[k]) matches Some(u) ==> rank(u)
                <= top_rank(cat, names, rank)),
    decreases names.len(),
{
    if names.len() > 0 {
        let front = names.drop_last();
        lemma_top_rank(cat, front, rank);
        assert forall|k: int| 0 <= k < names.len() implies (cat.find(
            #[trigger] names[k],
        ) matches Some(u) ==> rank(u) <= top_rank(cat, names, rank)) by {
            if k < front.len() {
                assert(front[k] == names[k]);
            }
        }
    }
}

// What a view is fed inside a transaction.

/// The changes that a view is fed: those that the transaction has made to its tables, and in place
/// of those to a view that it reads, what that view puts out.
pub open spec fn fed(
    base: Map<Seq<char>, Seq<Change>>,
    reads: Seq<Seq<char>>,
    outputs: Map<Seq<char>, Seq<Change>>,
) -> Map<Seq<char>, Seq<Change>> {
    Map::new(
        |n: Seq<char>|
            base.dom().contains(n) || (reads.contains(n) && outputs.dom().contains(n)),
        |n: Seq<char>|
            if reads.contains(n) && outputs.dom().contains(n) {
                outputs[n]
            } else {
                base[n]
            },
    )
}

/// Gathers the changes that a view is fed. `table_deltas` are those that the transaction has made,
/// `outputs` what the views below put out.
pub fn gather_inputs(
    table_deltas: Vec<(String, Delta)>,
    reads: &Vec<String>,
    outputs: &DeltaSet,
) -> (r: DeltaSet)
    requires
        outputs.wf(),
    ensures
        r.wf(),
        r@ == fed(pairs_map(table_deltas@), texts(reads@), outputs@),
{
    let ghost base = pairs_map(table_deltas@);
    let ghost list = texts(reads@);
    let mut r = DeltaSet::from_map(table_deltas);
    let mut i: usize = 0;
    assert(r@ =~= fed(base, list.take(0), outputs@));
    while i < reads.len()
        invariant
            i <= reads.len(),
            outputs.wf(),
            r.wf(),
            list == texts(reads@),
            r@ == fed(base, list.take(i as int), outputs@),
        decreases reads.len() - i,
    {
        let ghost before = r@;
        let ghost n = reads@[i as int]@;
        proof {
            assert(list[i as int] == n);
            assert forall|m: Seq<char>| #[trigger]
                list.take(i + 1).contains(m) <==> list.take(i as int).contains(m) || m == n by {
                if list.take(i as int).contains(m) {
                    let shorter = list.take(i as int);
                    let k = choose|k: int| 0 <= k < shorter.len() && shorter[k] == m;
                    assert(list.take(i + 1)[k] == m);
                }
                if m == n {
                    assert(list.take(i + 1)[i as int] == m);
                }
                if list.take(i + 1).contains(m) {
                    let longer = list.take(i + 1);
                    let k = choose|k: int| 0 <= k < longer.len() && longer[k] == m;
                    if k < i {
                        assert(list.take(i as int)[k] == m);
                    }
                }
            }
        }
        if let Some(d) = outputs.find(reads[i].as_str()) {
            r.insert(reads[i].clone(), d);
        }
        assert(r@ =~= fed(base, list.take(i + 1), outputs@));
        i += 1;
    }
    assert(list.take(i as int) =~= list);
    r
}

pub open spec fn total(counts: Seq<usize>) -> int
    decreases counts.len(),
{
    if counts.len() == 0 {
        0
    } else {
        total(counts.drop_last()) + counts.last()
    }
}

proof fn lemma_total_prefix(counts: Seq<usize>, n: int)
    requires
        0 <= n <= counts.len(),
    ensures
        0 <= total(counts.take(n)) <= total(counts),
    decreases counts.len(),
{
    if n == counts.len() {
        assert(counts.take(n) =~= counts);
        if n > 0 {
            lemma_total_prefix(counts.drop_last(), n - 1);
        }
    } else {
        lemma_total_prefix(counts.drop_last(), n);
        assert(counts.drop_last().take(n) =~= counts.take(n));
    }
}

/// How many changes a transaction has made that a view can see: its own and those of the views
/// that it reads.
pub fn total_relevant_tx_len(own: usize, upstream_lens: &Vec<usize>) -> (r: usize)
    requires
        own + total(upstream_lens@) <= usize::MAX,
    ensures
        r == own + total(upstream_lens@),
{
    let ghost all = upstream_lens@;
    let mut sum: usize = own;
    let mut i: usize = 0;
    assert(all.take(0) =~= Seq::<usize>::empty());
    while i < upstream_lens.len()
        invariant
            i <= upstream_lens.len(),
            all == upstream_lens@,
            own + total(all) <= usize::MAX,
            sum == own + total(all.take(i as int)),
        decreases upstream_lens.len() - i,
    {
        proof {
            assert(all.take(i + 1).drop_last() =~= all.take(i as int));
            lemma_total_prefix(all, i + 1);
        }
        sum = sum + upstream_lens[i];
        i += 1;
    }
    assert(all.take(i as int) =~= all);
    sum
}

/// The computation of what the views below a view put out inside a transaction. They are run from
/// the deepest up, and each is fed what those below it put out.
#[derive(Debug)]
pub struct UpstreamRun {
    /// The views to run, by their positions.
    pub order: Vec<usize>,
    /// How many have been run.
    pub done: usize,
    /// What they put out.
    pub outputs: DeltaSet,
}

impl UpstreamRun {
    pub open spec fn wf(&self, cat: CatalogView) -> bool {
        &&& self.done <= self.order@.len()
        &&& forall|i: int| 0 <= i < self.order@.len() ==> #[trigger] self.order@[i] < cat.views.len()
        &&& self.outputs.wf()
    }

    /// Starts with the deepest of the views below.
    pub fn new(cat: &ViewCatalog, direct_reads: &Vec<String>) -> (r: Self)
        requires
            cat@.wf(),
        ensures
            r.wf(cat@),
            r.order@.map_values(|i: usize| i as int) == upstream(cat@, texts(direct_reads@)),
            r.done == 0,
            r.outputs@ == Map::<Seq<char>, Seq<Change>>::empty(),
    {
        let order = collect_upstream_views(cat, direct_reads);
        proof {
            let start = untouched(cat@.views.len());
            lemma_listed_known(cat@, texts(direct_reads@), start);
            assert forall|i: int| 0 <= i < order@.len() implies #[trigger] order@[i]
                < cat@.views.len() by {
                assert(order@.map_values(|i: usize| i as int)[i] == order@[i]);
            }
        }
        UpstreamRun { order, done: 0, outputs: DeltaSet::new() }
    }

    /// The view to run next and the changes that it is fed, where there is one left.
    /// `table_deltas` are the changes that the transaction has made to the tables of that view.
    pub fn next(&self, cat: &ViewCatalog, table_deltas: Vec<(String, Delta)>) -> (r: Option<
        (usize, DeltaSet),
    >)
        requires
            self.wf(cat@),
        ensures
            if self.done == self.order@.len() {
                r is None
            } else {
                let at = self.order@[self.done as int];
                &&& r matches Some(n) && n.0 == at && n.1.wf() && n.1@ == fed(
                    pairs_map(table_deltas@),
                    cat@.views[at as int].reads,
                    self.outputs@,
                )
            },
    {
        if self.done == self.order.len() {
            return None;
        }
        let at: usize = self.order[self.done];
        let view = &cat.views[at];
        assert(cat@.views[at as int] == view@);
        Some((at, gather_inputs(table_deltas, &view.reads, &self.outputs)))
    }

    /// Takes in what the view that was to be run put out.
    pub fn record(&mut self, cat: &ViewCatalog, output: Delta)
        requires
            old(self).wf(cat@),
            old(self).done < old(self).order@.len(),
        ensures
            final(self).wf(cat@),
            final(self).order == old(self).order,
            final(self).done == old(self).done + 1,
            final(self).outputs@ == old(self).outputs@.insert(
                cat@.views[old(self).order@[old(self).done as int] as int].name,
                output@,
            ),
    {
        let at: usize = self.order[self.done];
        assert(self.order.len() <= usize::MAX);
        assert(cat@.views[at as int] == cat.views@[at as int]@);
        self.outputs.insert(cat.views[at].name.clone(), output);
        self.done = self.done + 1;
    }
}

/// Whether what is listed are views.
spec fn listed_known(n: nat, order: Seq<int>) -> bool {
    forall|i: int| 0 <= i < order.len() ==> 0 <= #[trigger] order[i] < n
}

proof fn lemma_listed_known(cat: CatalogView, names: Seq<Seq<char>>, v: Visit)
    requires
        listed_known(v.visited.len(), v.order),
    ensures
        listed_known(v.visited.len(), gone_through(cat, names, v).order),
        gone_through(cat, names, v).visited.len() == v.visited.len(),
    decreases unvisited(v.visited), names.len(),
{
    if names.len() > 0 {
        lemma_listed_known(cat, names.drop_last(), v);
        let before = gone_through(cat, names.drop_last(), v);
        match cat.find(names.last()) {
            None => {},
            Some(at) => {
                if unvisited(before.visited) <= unvisited(v.visited) {
                    lemma_listed_known_by(cat, at, before);
                }
            },
        }
    }
}

proof fn lemma_listed_known_by(cat: CatalogView, at: int, v: Visit)
    requires
        listed_known(v.visited.len(), v.order),
    ensures
        listed_known(v.visited.len(), gone_to(cat, at, v).order),
        gone_to(cat, at, v).visited.len() == v.visited.len(),
    decreases unvisited(v.visited), 0nat,
{
    if 0 <= at < v.visited.len() && !v.visited[at] {
        let marked = Visit { visited: v.visited.update(at, true), order: v.order };
        if unvisited(marked.visited) < unvisited(v.visited) {
            lemma_listed_known(cat, cat.views[at].reads, marked);
        }
    }
}

/// A view is fed what the views that it reads put out, whatever the transaction has changed under
/// their names, and the changes of the transaction to everything else.
pub proof fn law_views_are_fed_what_they_read(
    base: Map<Seq<char>, Seq<Change>>,
    reads: Seq<Seq<char>>,
    outputs: Map<Seq<char>, Seq<Change>>,
    name: Seq<char>,
)
    ensures
        ({
            let r = fed(base, reads, outputs);
            if (exists|k: int| 0 <= k < reads.len() && #[trigger] reads[k] == name)
                && outputs.dom().contains(name) {
                r.dom().contains(name) && r[name] == outputs[name]
            } else if base.dom().contains(name) {
                r.dom().contains(name) && r[name] == base[name]
            } else {
                !r.dom().contains(name)
            }
        }),
{
}

/// A sum grows by what is added at its end.
pub proof fn law_a_total_counts_every_part(counts: Seq<usize>, more: usize)
    ensures
        total(Seq::empty()) == 0,
        total(counts.push(more)) == total(counts) + more,
{
    assert(counts.push(more).drop_last() =~= counts);
}

} // verus!
