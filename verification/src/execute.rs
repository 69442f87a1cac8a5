//! Running a circuit.
//!
//! A run computes what the root of a circuit puts out. The operators are run by the caller, who
//! is told which node to run next on which changes, and hands back what came out. What a node put
//! out is kept for the rest of the pass, so that all who read the node see the same changes and
//! no operator is run twice on one set of inputs. A recursive node is computed in passes of its
//! own: one for its base case and one for each iteration of its step.

use vstd::prelude::*;

use crate::circuit::{
    acyclic, recursive_ids, DbspCircuit, DbspOperator, NodeView, OperatorView,
};
use crate::compiler::delay_name;
use crate::deltas::{no_changes, InputDeltas, InputsView};
use crate::error::{parse_error, ErrorView, LimboError};
use crate::names::IdIndex;
use crate::seqs::{first_where, lemma_first_where, lemma_is_first_where, lemma_none_where};
use crate::text::{decimal, decimal_usize};
use crate::zset::{Change, Delta, DeltaPair};

verus! {

// What nodes have put out.

/// What the nodes of a circuit put out, by their numbers.
pub type Outputs = Map<i64, Seq<Change>>;

/// What nodes have put out in a pass.
#[derive(Debug)]
pub struct Memo {
    index: IdIndex,
    deltas: Vec<Delta>,
}

impl View for Memo {
    type V = Outputs;

    closed spec fn view(&self) -> Outputs {
        Map::new(
            |id: i64| self.index@.dom().contains(id),
            |id: i64| self.deltas@[self.index@[id] as int]@,
        )
    }
}

impl Memo {
    pub closed spec fn wf(&self) -> bool {
        forall|id: i64| #[trigger]
            self.index@.dom().contains(id) ==> self.index@[id] < self.deltas@.len()
    }

    fn new() -> (r: Self)
        ensures
            r.wf(),
            r@ == Outputs::empty(),
    {
        let r = Memo { index: IdIndex::new(), deltas: Vec::new() };
        assert(r@ =~= Outputs::empty());
        r
    }

    fn insert(&mut self, id: i64, delta: Delta)
        requires
            old(self).wf(),
        ensures
            final(self).wf(),
            final(self)@ == old(self)@.insert(id, delta@),
    {
        let ghost before = *self;
        let ghost d = delta@;
        let at: usize = self.deltas.len();
        self.deltas.push(delta);
        self.index.insert(id, at);
        assert(self@ =~= before@.insert(id, d));
    }

    fn get(&self, id: i64) -> (r: Option<Delta>)
        requires
            self.wf(),
        ensures
            match r {
                Some(d) => self@.dom().contains(id) && self@[id] == d@,
                None => !self@.dom().contains(id),
            },
    {
        match self.index.get(id) {
            Some(at) => {
                assert(self.index@.dom().contains(id));
                Some(self.deltas[at].clone())
            },
            None => None,
        }
    }

    fn has(&self, id: i64) -> (r: bool)
        ensures
            r == self@.dom().contains(id),
    {
        self.index.get(id).is_some()
    }
}

// Passes.

/// Where a recursive node stands: at its base case, at the first iteration of its step, or later.
#[derive(Debug, PartialEq, Eq, Clone, Copy, Structural)]
pub enum Round {
    Base,
    First,
    Later,
}

/// The recursive node that a pass is made for.
#[derive(Debug, PartialEq, Eq, Clone, Copy, Structural)]
pub struct Fixpoint {
    pub node: i64,
    pub round: Round,
}

/// A pass over a circuit.
#[derive(Debug)]
pub struct Pass {
    /// The node that the pass computes.
    pub root: i64,
    pub memo: Memo,
    pub inputs: InputDeltas,
    /// The recursive node that it is made for, unless it is the pass of the run itself.
    pub fixpoint: Option<Fixpoint>,
}

#[verifier::ext_equal]
pub struct PassView {
    pub root: i64,
    pub memo: Outputs,
    pub inputs: InputsView,
    pub fixpoint: Option<Fixpoint>,
}

impl View for Pass {
    type V = PassView;

    open spec fn view(&self) -> PassView {
        PassView {
            root: self.root,
            memo: self.memo@,
            inputs: self.inputs@,
            fixpoint: self.fixpoint,
        }
    }
}

pub open spec fn pass_views(list: Seq<Pass>) -> Seq<PassView> {
    list.map_values(|p: Pass| p@)
}

/// A node by its number.
pub open spec fn node_at(nodes: Seq<NodeView>, id: i64) -> NodeView {
    nodes[id - 1]
}

pub open spec fn known(nodes: Seq<NodeView>, id: i64) -> bool {
    1 <= id <= nodes.len()
}

pub open spec fn is_recursive(nodes: Seq<NodeView>, id: i64) -> bool {
    node_at(nodes, id).operator is Recursive
}

/// The nodes whose output a node must be handed. An input and a literal need none; a recursive
/// node has its inputs computed in passes of its own.
pub open spec fn awaited(nodes: Seq<NodeView>, id: i64) -> Seq<i64> {
    match node_at(nodes, id).operator {
        OperatorView::Input { .. } => Seq::empty(),
        OperatorView::Literal { .. } => Seq::empty(),
        OperatorView::Recursive { .. } => Seq::empty(),
        _ => node_at(nodes, id).inputs,
    }
}

pub open spec fn missing_from(memo: Outputs) -> spec_fn(i64) -> bool {
    |id: i64| !memo.dom().contains(id)
}

/// The node to run next for a node: the first, from left to right and from the bottom up, that has
/// not been run and whose inputs all have.
pub open spec fn next_node(nodes: Seq<NodeView>, id: i64, memo: Outputs) -> i64
    decreases id,
{
    match first_where(awaited(nodes, id), missing_from(memo)) {
        Some(k) => if 1 <= awaited(nodes, id)[k] < id {
            next_node(nodes, awaited(nodes, id)[k], memo)
        } else {
            id
        },
        None => id,
    }
}

/// What a node has put out, nothing where there is no such node.
pub open spec fn output_at(memo: Outputs, inputs: Seq<i64>, i: int) -> Seq<Change> {
    if i < inputs.len() {
        memo[inputs[i]]
    } else {
        no_changes()
    }
}

/// The changes that a node is handed.
pub open spec fn handed(
    nodes: Seq<NodeView>,
    id: i64,
    memo: Outputs,
    inputs: InputsView,
) -> (Seq<Change>, Seq<Change>) {
    match node_at(nodes, id).operator {
        OperatorView::Input { name, .. } => (inputs.at(name), no_changes()),
        OperatorView::Literal { .. } => (no_changes(), no_changes()),
        _ => (
            output_at(memo, node_at(nodes, id).inputs, 0),
            output_at(memo, node_at(nodes, id).inputs, 1),
        ),
    }
}

/// A pass asks for a node that has not been run in it, all of whose inputs have.
pub proof fn law_a_pass_runs_each_node_once(nodes: Seq<NodeView>, id: i64, memo: Outputs)
    requires
        acyclic(nodes),
        known(nodes, id),
        !memo.dom().contains(id),
    ensures
        known(nodes, next_node(nodes, id, memo)),
        next_node(nodes, id, memo) <= id,
        !memo.dom().contains(next_node(nodes, id, memo)),
        forall|k: int|
            0 <= k < awaited(nodes, next_node(nodes, id, memo)).len() ==> memo.dom().contains(
                #[trigger] awaited(nodes, next_node(nodes, id, memo))[k],
            ),
    decreases id,
{
    let p = missing_from(memo);
    lemma_first_where(awaited(nodes, id), p);
    match first_where(awaited(nodes, id), p) {
        Some(k) => {
            assert(nodes[id - 1].inputs[k] <= id - 1);
            law_a_pass_runs_each_node_once(nodes, awaited(nodes, id)[k], memo);
        },
        None => {
            assert forall|k: int| 0 <= k < awaited(nodes, id).len() implies memo.dom().contains(
                #[trigger] awaited(nodes, id)[k],
            ) by {
                assert(!p(awaited(nodes, id)[k]));
            }
        },
    }
}

/// What a node puts out where every operator `f` depends on what it is handed alone and the
/// recursive nodes put out `fixed`.
pub open spec fn evaluated(
    nodes: Seq<NodeView>,
    id: i64,
    f: spec_fn(i64, Seq<Change>, Seq<Change>) -> Seq<Change>,
    fixed: spec_fn(i64) -> Seq<Change>,
    inputs: InputsView,
) -> Seq<Change>
    decreases id,
{
    match node_at(nodes, id).operator {
        OperatorView::Recursive { .. } => fixed(id),
        OperatorView::Input { name, .. } => f(id, inputs.at(name), no_changes()),
        OperatorView::Literal { .. } => f(id, no_changes(), no_changes()),
        _ => {
            let ins = node_at(nodes, id).inputs;
            let left = if ins.len() > 0 && 1 <= ins[0] < id {
                evaluated(nodes, ins[0], f, fixed, inputs)
            } else {
                no_changes()
            };
            let right = if ins.len() > 1 && 1 <= ins[1] < id {
                evaluated(nodes, ins[1], f, fixed, inputs)
            } else {
                no_changes()
            };
            f(id, left, right)
        },
    }
}

/// A pass evaluates the circuit: if what has been put out so far is what evaluating the nodes
/// gives, then so it is with the output of the next node added, and with all nodes that the root
/// needs run, the output of the root is what evaluating the root gives.
pub proof fn law_a_pass_evaluates_its_root(
    nodes: Seq<NodeView>,
    root: i64,
    memo: Outputs,
    f: spec_fn(i64, Seq<Change>, Seq<Change>) -> Seq<Change>,
    fixed: spec_fn(i64) -> Seq<Change>,
    inputs: InputsView,
)
    requires
        acyclic(nodes),
        known(nodes, root),
        forall|id: i64| #[trigger]
            memo.dom().contains(id) ==> memo[id] == evaluated(nodes, id, f, fixed, inputs),
    ensures
        memo.dom().contains(root) ==> memo[root] == evaluated(nodes, root, f, fixed, inputs),
        !memo.dom().contains(root) ==> ({
            let n = next_node(nodes, root, memo);
            let h = handed(nodes, n, memo, inputs);
            let out = if is_recursive(nodes, n) {
                fixed(n)
            } else {
                f(n, h.0, h.1)
            };
            out == evaluated(nodes, n, f, fixed, inputs)
        }),
{
    if !memo.dom().contains(root) {
        law_a_pass_runs_each_node_once(nodes, root, memo);
        let n = next_node(nodes, root, memo);
        let ins = node_at(nodes, n).inputs;
        if awaited(nodes, n) == ins {
            if ins.len() > 0 {
                assert(memo.dom().contains(awaited(nodes, n)[0]));
                assert(nodes[n - 1].inputs[0] <= n - 1);
            }
            if ins.len() > 1 {
                assert(memo.dom().contains(awaited(nodes, n)[1]));
                assert(nodes[n - 1].inputs[1] <= n - 1);
            }
        }
    }
}

// Runs.

/// A recursive node with all its inputs.
pub open spec fn complete(nodes: Seq<NodeView>, id: i64) -> bool {
    known(nodes, id) && is_recursive(nodes, id) && node_at(nodes, id).inputs.len() == 3
}

pub open spec fn recursive_name(nodes: Seq<NodeView>, id: i64) -> Seq<char> {
    match node_at(nodes, id).operator {
        OperatorView::Recursive { name, .. } => name,
        _ => Seq::empty(),
    }
}

/// The passes of a run. Every pass but the first is made for a recursive node, which is the node
/// that the pass below waits for.
pub open spec fn passes_wf(nodes: Seq<NodeView>, passes: Seq<PassView>) -> bool {
    &&& passes.len() > 0
    &&& passes[0].fixpoint is None
    &&& forall|i: int| 0 <= i < passes.len() ==> known(nodes, (#[trigger] passes[i]).root)
    &&& forall|i: int|
        0 < i < passes.len() ==> {
            &&& (#[trigger] passes[i]).fixpoint is Some
            &&& complete(nodes, passes[i].fixpoint->Some_0.node)
            &&& passes[i].root < passes[i].fixpoint->Some_0.node
            &&& !passes[i - 1].memo.dom().contains(passes[i - 1].root)
            &&& passes[i].fixpoint->Some_0.node == next_node(
                nodes,
                passes[i - 1].root,
                passes[i - 1].memo,
            )
        }
}

/// Whether a pass has come to a recursive node.
pub open spec fn must_enter(nodes: Seq<NodeView>, p: PassView) -> bool {
    !p.memo.dom().contains(p.root) && is_recursive(nodes, next_node(nodes, p.root, p.memo))
}

pub open spec fn input_count_message(name: Seq<char>, n: nat) -> Seq<char> {
    "Recursive node '"@ + name + "' must have exactly 3 inputs, found "@ + decimal(n)
}

/// The pass for the base case of a recursive node.
pub open spec fn base_pass(nodes: Seq<NodeView>, below: PassView) -> PassView {
    let n = next_node(nodes, below.root, below.memo);
    PassView {
        root: node_at(nodes, n).inputs[0],
        memo: Map::empty(),
        inputs: below.inputs,
        fixpoint: Some(Fixpoint { node: n, round: Round::Base }),
    }
}

/// The passes once every recursive node that was come to has been entered.
pub open spec fn settled(nodes: Seq<NodeView>, passes: Seq<PassView>) -> Result<
    Seq<PassView>,
    ErrorView,
>
    decreases passes.last().root,
{
    let top = passes.last();
    let n = next_node(nodes, top.root, top.memo);
    if !must_enter(nodes, top) {
        Ok(passes)
    } else if node_at(nodes, n).inputs.len() != 3 {
        Err(
            ErrorView::ParseError(
                input_count_message(recursive_name(nodes, n), node_at(nodes, n).inputs.len()),
            ),
        )
    } else if 1 <= node_at(nodes, n).inputs[0] < top.root {
        settled(nodes, passes.push(base_pass(nodes, top)))
    } else {
        Ok(passes)
    }
}

/// What the caller of a run has to do.
#[derive(Debug)]
pub enum Action {
    /// Give the operators of these recursive nodes their state back from the stored view, those that
    /// have lost it.
    Restore { nodes: Vec<i64> },
    /// Run the operator of a node, and commit what it learns or not.
    Run { node_id: i64, deltas: DeltaPair, commit: bool },
    /// Start the operator of a recursive node on its base case.
    Initialize { node_id: i64, base: Delta },
    /// Hand the operator of a recursive node what its step put out.
    Iterate { node_id: i64, step: Delta },
    /// The run is over.
    Done(Delta),
}

#[verifier::ext_equal]
pub enum ActionView {
    Restore { nodes: Seq<i64> },
    Run { node_id: i64, left: Seq<Change>, right: Seq<Change>, commit: bool },
    Initialize { node_id: i64, base: Seq<Change> },
    Iterate { node_id: i64, step: Seq<Change> },
    Done(Seq<Change>),
}

impl View for Action {
    type V = ActionView;

    open spec fn view(&self) -> ActionView {
        match self {
            Action::Restore { nodes } => ActionView::Restore { nodes: nodes@ },
            Action::Run { node_id, deltas, commit } => ActionView::Run {
                node_id: *node_id,
                left: deltas.left@,
                right: deltas.right@,
                commit: *commit,
            },
            Action::Initialize { node_id, base } => ActionView::Initialize {
                node_id: *node_id,
                base: base@,
            },
            Action::Iterate { node_id, step } => ActionView::Iterate {
                node_id: *node_id,
                step: step@,
            },
            Action::Done(d) => ActionView::Done(d@),
        }
    }
}

/// What is to be done in some passes, all recursive nodes entered.
pub open spec fn action_of(nodes: Seq<NodeView>, passes: Seq<PassView>, commit: bool) -> ActionView {
    let top = passes.last();
    if top.memo.dom().contains(top.root) {
        match top.fixpoint {
            None => ActionView::Done(top.memo[top.root]),
            Some(f) => match f.round {
                Round::Base => ActionView::Initialize {
                    node_id: f.node,
                    base: top.memo[top.root],
                },
                _ => ActionView::Iterate { node_id: f.node, step: top.memo[top.root] },
            },
        }
    } else {
        let n = next_node(nodes, top.root, top.memo);
        let h = handed(nodes, n, top.memo, top.inputs);
        ActionView::Run { node_id: n, left: h.0, right: h.1, commit }
    }
}

/// What the caller of a run has done.
#[derive(Debug)]
pub enum Event {
    /// Nothing yet: asks again for what is to be done.
    Resume,
    /// The recursive operators have their state.
    Restored,
    /// A node was run, and this is what it put out.
    Output(Delta),
    /// A recursive node was started, and this is what its first iteration is fed.
    Started(Delta),
    /// A recursive node goes on, and this is what its next iteration is fed.
    Continued(Delta),
    /// A recursive node has come to its fixed point, and this is what it puts out.
    Finished(Delta),
}

/// Whether an event answers what was to be done.
pub open spec fn answers(nodes: Seq<NodeView>, passes: Seq<PassView>, event: Event) -> bool {
    match event {
        Event::Resume => true,
        Event::Restored => false,
        Event::Output(_) => action_of(nodes, passes, false) is Run,
        Event::Started(_) => action_of(nodes, passes, false) is Initialize,
        Event::Continued(_) => action_of(nodes, passes, false) is Iterate,
        Event::Finished(_) => action_of(nodes, passes, false) is Iterate,
    }
}

/// A pass with the output of a node added.
pub open spec fn with_output(p: PassView, id: i64, changes: Seq<Change>) -> PassView {
    PassView { memo: p.memo.insert(id, changes), ..p }
}

/// The pass for the next iteration of a recursive node. From the second iteration on the changes
/// that the run was given have been stored, where they are, so that only what is fed back is new.
pub open spec fn step_pass(
    nodes: Seq<NodeView>,
    p: PassView,
    delay: Seq<Change>,
    stored: bool,
) -> PassView {
    let f = p.fixpoint->Some_0;
    let inputs = p.inputs.set(delay_name(recursive_name(nodes, f.node)), delay);
    PassView {
        root: node_at(nodes, f.node).inputs[1],
        memo: Map::empty(),
        inputs: if f.round == Round::First && stored {
            inputs.without_base()
        } else {
            inputs
        },
        fixpoint: Some(
            Fixpoint {
                node: f.node,
                round: if f.round == Round::Base {
                    Round::First
                } else {
                    Round::Later
                },
            },
        ),
    }
}

/// The passes after an event. `stored` says whether operators store what they are handed.
pub open spec fn moved(
    nodes: Seq<NodeView>,
    passes: Seq<PassView>,
    event: Event,
    stored: bool,
) -> Seq<PassView> {
    let top = passes.last();
    let rest = passes.drop_last();
    match event {
        Event::Resume => passes,
        Event::Restored => passes,
        Event::Output(d) => rest.push(
            with_output(top, next_node(nodes, top.root, top.memo), d@),
        ),
        Event::Started(d) => rest.push(step_pass(nodes, top, d@, stored)),
        Event::Continued(d) => rest.push(step_pass(nodes, top, d@, stored)),
        Event::Finished(d) => rest.drop_last().push(
            with_output(rest.last(), top.fixpoint->Some_0.node, d@),
        ),
    }
}

/// A run.
#[derive(Debug)]
pub enum ExecuteState {
    /// Not started, and nothing to start with.
    Uninitialized,
    /// Not started.
    Init { input_data: InputDeltas },
    /// Under way.
    Running { passes: Vec<Pass> },
}

impl ExecuteState {
    /// The passes of the run, where the circuit has the root `root`.
    pub open spec fn passes(&self, root: i64) -> Seq<PassView> {
        match self {
            ExecuteState::Uninitialized => Seq::empty(),
            ExecuteState::Init { input_data } => seq![
                PassView {
                    root,
                    memo: Map::empty(),
                    inputs: input_data@,
                    fixpoint: None,
                },
            ],
            ExecuteState::Running { passes } => pass_views(passes@),
        }
    }

    pub open spec fn wf(&self, nodes: Seq<NodeView>) -> bool {
        match self {
            ExecuteState::Uninitialized => false,
            ExecuteState::Init { input_data } => input_data.wf(),
            ExecuteState::Running { passes } => {
                &&& passes_wf(nodes, pass_views(passes@))
                &&& !must_enter(nodes, pass_views(passes@).last())
                &&& forall|i: int|
                    0 <= i < passes@.len() ==> (#[trigger] passes@[i]).memo.wf()
                        && passes@[i].inputs.wf()
            },
        }
    }

    /// Whether an event can come next.
    pub open spec fn expects(&self, nodes: Seq<NodeView>, event: Event) -> bool {
        match self {
            ExecuteState::Running { passes } => answers(nodes, pass_views(passes@), event),
            _ => event is Resume || event is Restored,
        }
    }
}

/// The operators that may have to be given their state back: those of the recursive nodes, where the
/// view is stored.
pub open spec fn restorable(circuit: DbspCircuit) -> Seq<i64> {
    if circuit.main_data_root == 0 {
        Seq::empty()
    } else {
        recursive_ids(circuit@, circuit@.len() as int)
    }
}

/// Whether a run first asks for the state of the recursive operators: one that has not started does,
/// until it is told that they have it.
pub open spec fn asks_for_state(circuit: DbspCircuit, state: ExecuteState, event: Event) -> bool {
    state is Init && event is Resume && restorable(circuit).len() > 0
}

/// Finds the node to run next for a node.
fn find_next(circuit: &DbspCircuit, root: i64, memo: &Memo) -> (r: i64)
    requires
        circuit.wf(),
        known(circuit@, root),
    ensures
        r == next_node(circuit@, root, memo@),
{
    let ghost nodes = circuit@;
    let ghost p = missing_from(memo@);
    let mut id: i64 = root;
    loop
        invariant
            circuit.wf(),
            nodes == circuit@,
            p == missing_from(memo@),
            known(nodes, id),
            next_node(nodes, id, memo@) == next_node(nodes, root, memo@),
        ensures
            id == next_node(nodes, root, memo@),
        decreases id,
    {
        let node = &circuit.nodes[(id - 1) as usize];
        assert(node_at(nodes, id) == node@);
        let waits = match &node.operator {
            DbspOperator::Input { .. } => false,
            DbspOperator::Literal { .. } => false,
            DbspOperator::Recursive { .. } => false,
            _ => true,
        };
        let mut found: Option<i64> = None;
        if waits {
            assert(awaited(nodes, id) == node.inputs@);
            let mut k: usize = 0;
            while k < node.inputs.len() && found.is_none()
                invariant
                    k <= node.inputs.len(),
                    p == missing_from(memo@),
                    match found {
                        None => forall|j: int| 0 <= j < k ==> !p(#[trigger] node.inputs@[j]),
                        Some(x) => k < node.inputs.len() && node.inputs@[k as int] == x && p(x)
                            && forall|j: int| 0 <= j < k ==> !p(#[trigger] node.inputs@[j]),
                    },
                decreases node.inputs.len() - k + (if found is None {
                    1int
                } else {
                    0
                }),
            {
                if memo.has(node.inputs[k]) {
                    k += 1;
                } else {
                    found = Some(node.inputs[k]);
                }
            }
            proof {
                match found {
                    Some(x) => {
                        lemma_is_first_where(node.inputs@, p, k as int);
                    },
                    None => {
                        lemma_none_where(node.inputs@, p);
                    },
                }
            }
        } else {
            assert(awaited(nodes, id) =~= Seq::<i64>::empty());
        }
        match found {
            Some(x) => {
                proof {
                    let k = first_where(awaited(nodes, id), p)->Some_0;
                    lemma_first_where(awaited(nodes, id), p);
                    assert(nodes[id - 1].inputs[k] <= id - 1);
                }
                id = x;
            },
            None => {
                break;
            },
        }
    }
    id
}

fn output_or_none(memo: &Memo, inputs: &Vec<i64>, i: usize) -> (r: Delta)
    requires
        memo.wf(),
        i < inputs@.len() ==> memo@.dom().contains(inputs@[i as int]),
    ensures
        r@ == output_at(memo@, inputs@, i as int),
{
    if i < inputs.len() {
        match memo.get(inputs[i]) {
            Some(d) => d,
            None => Delta::new(),
        }
    } else {
        let d = Delta::new();
        assert(d@ =~= no_changes());
        d
    }
}

/// Gathers the changes that a node is handed.
fn gather(circuit: &DbspCircuit, id: i64, memo: &Memo, inputs: &InputDeltas) -> (r: DeltaPair)
    requires
        circuit.wf(),
        known(circuit@, id),
        !is_recursive(circuit@, id),
        memo.wf(),
        inputs.wf(),
        forall|k: int|
            0 <= k < awaited(circuit@, id).len() ==> memo@.dom().contains(
                #[trigger] awaited(circuit@, id)[k],
            ),
    ensures
        (r.left@, r.right@) == handed(circuit@, id, memo@, inputs@),
{
    let node = &circuit.nodes[(id - 1) as usize];
    assert(node_at(circuit@, id) == node@);
    match &node.operator {
        DbspOperator::Input { name, .. } => {
            let right = Delta::new();
            assert(right@ =~= no_changes());
            DeltaPair::new(inputs.get(name.as_str()), right)
        },
        DbspOperator::Literal { .. } => {
            let left = Delta::new();
            let right = Delta::new();
            assert(left@ =~= no_changes());
            assert(right@ =~= no_changes());
            DeltaPair::new(left, right)
        },
        _ => {
            assert(awaited(circuit@, id) == node.inputs@);
            proof {
                if node.inputs@.len() > 0 {
                    assert(memo@.dom().contains(awaited(circuit@, id)[0]));
                }
                if node.inputs@.len() > 1 {
                    assert(memo@.dom().contains(awaited(circuit@, id)[1]));
                }
            }
            DeltaPair::new(
                output_or_none(memo, &node.inputs, 0),
                output_or_none(memo, &node.inputs, 1),
            )
        },
    }
}

/// Every pass can be read.
spec fn passes_ok(passes: Seq<Pass>) -> bool {
    forall|i: int|
        0 <= i < passes.len() ==> (#[trigger] passes[i]).memo.wf() && passes[i].inputs.wf()
}

proof fn lemma_pass_views_push(passes: Seq<Pass>, p: Pass)
    ensures
        pass_views(passes.push(p)) == pass_views(passes).push(p@),
{
    assert(pass_views(passes.push(p)) =~= pass_views(passes).push(p@));
}

proof fn lemma_pass_views_drop_last(passes: Seq<Pass>)
    requires
        passes.len() > 0,
    ensures
        pass_views(passes.drop_last()) == pass_views(passes).drop_last(),
        pass_views(passes).last() == passes.last()@,
{
    assert(pass_views(passes.drop_last()) =~= pass_views(passes).drop_last());
}

/// The pass for the next iteration of a recursive node.
fn make_step_pass(circuit: &DbspCircuit, top: Pass, delay: Delta, stored: bool) -> (r: Pass)
    requires
        circuit.wf(),
        top.inputs.wf(),
        top.fixpoint is Some,
        complete(circuit@, top.fixpoint->Some_0.node),
    ensures
        r@ == step_pass(circuit@, top@, delay@, stored),
        r.memo.wf(),
        r.inputs.wf(),
        known(circuit@, r.root),
        r.root < top.fixpoint->Some_0.node,
{
    let Pass { root: _, memo: _, inputs, fixpoint } = top;
    let mut inputs = inputs;
    let f = match fixpoint {
        Some(f) => f,
        None => Fixpoint { node: 1, round: Round::Base },
    };
    let node = &circuit.nodes[(f.node - 1) as usize];
    assert(node_at(circuit@, f.node) == node@);
    proof {
        assert(circuit@[f.node - 1].inputs[1] <= f.node - 1);
    }
    let mut key = "__delay_".to_owned();
    match &node.operator {
        DbspOperator::Recursive { name, .. } => {
            key.append(name.as_str());
        },
        _ => {},
    }
    inputs.insert(key, delay);
    if f.round == Round::First && stored {
        inputs.clear_base();
    }
    let round = if f.round == Round::Base {
        Round::First
    } else {
        Round::Later
    };
    Pass {
        root: node.inputs[1],
        memo: Memo::new(),
        inputs,
        fixpoint: Some(Fixpoint { node: f.node, round }),
    }
}

/// Carries an event out on the passes of a run.
fn apply(circuit: &DbspCircuit, passes: &mut Vec<Pass>, event: Event, stored: bool)
    requires
        circuit.wf(),
        passes_wf(circuit@, pass_views(old(passes)@)),
        passes_ok(old(passes)@),
        !must_enter(circuit@, pass_views(old(passes)@).last()),
        answers(circuit@, pass_views(old(passes)@), event),
    ensures
        passes_wf(circuit@, pass_views(final(passes)@)),
        passes_ok(final(passes)@),
        pass_views(final(passes)@) == moved(circuit@, pass_views(old(passes)@), event, stored),
{
    let ghost nodes = circuit@;
    let ghost before = passes@;
    let ghost views = pass_views(before);
    let ghost goal = moved(nodes, views, event, stored);
    proof {
        lemma_pass_views_drop_last(before);
    }
    match event {
        Event::Resume => {},
        Event::Restored => {},
        Event::Output(d) => {
            let mut top = match passes.pop() {
                Some(t) => t,
                None => return,
            };
            proof {
                assert(passes@ =~= before.drop_last());
                assert(top@ == views.last());
            }
            let id = find_next(circuit, top.root, &top.memo);
            top.memo.insert(id, d);
            let ghost t = top;
            passes.push(top);
            proof {
                lemma_pass_views_push(before.drop_last(), t);
                assert(pass_views(passes@) =~= goal);
                assert forall|i: int| 0 <= i < goal.len() - 1 implies goal[i] == views[i] by {}
            }
        },
        Event::Started(d) => {
            let top = match passes.pop() {
                Some(t) => t,
                None => return,
            };
            proof {
                assert(passes@ =~= before.drop_last());
                assert(top@ == views.last());
                assert(views.len() - 1 > 0);
                assert(views[views.len() - 1].fixpoint is Some);
            }
            let next = make_step_pass(circuit, top, d, stored);
            let ghost t = next;
            passes.push(next);
            proof {
                lemma_pass_views_push(before.drop_last(), t);
                assert(pass_views(passes@) =~= goal);
                assert forall|i: int| 0 <= i < goal.len() - 1 implies goal[i] == views[i] by {}
            }
        },
        Event::Continued(d) => {
            let top = match passes.pop() {
                Some(t) => t,
                None => return,
            };
            proof {
                assert(passes@ =~= before.drop_last());
                assert(top@ == views.last());
                assert(views.len() - 1 > 0);
                assert(views[views.len() - 1].fixpoint is Some);
            }
            let next = make_step_pass(circuit, top, d, stored);
            let ghost t = next;
            passes.push(next);
            proof {
                lemma_pass_views_push(before.drop_last(), t);
                assert(pass_views(passes@) =~= goal);
                assert forall|i: int| 0 <= i < goal.len() - 1 implies goal[i] == views[i] by {}
            }
        },
        Event::Finished(d) => {
            proof {
                assert(views.len() - 1 > 0);
                assert(views[views.len() - 1].fixpoint is Some);
            }
            let top = match passes.pop() {
                Some(t) => t,
                None => return,
            };
            let node: i64 = match top.fixpoint {
                Some(f) => f.node,
                None => 1,
            };
            let mut below = match passes.pop() {
                Some(t) => t,
                None => return,
            };
            proof {
                assert(top@ == views.last());
                assert(below@ == views[views.len() - 2]);
                assert(passes@ =~= before.drop_last().drop_last());
            }
            below.memo.insert(node, d);
            let ghost t = below;
            passes.push(below);
            proof {
                lemma_pass_views_drop_last(before.drop_last());
                lemma_pass_views_push(before.drop_last().drop_last(), t);
                assert(pass_views(passes@) =~= goal);
                assert forall|i: int| 0 <= i < goal.len() - 1 implies goal[i] == views[i] by {}
            }
        },
    }
}

/// Enters the recursive nodes that the passes of a run have come to.
fn settle(circuit: &DbspCircuit, passes: &mut Vec<Pass>) -> (r: Result<(), LimboError>)
    requires
        circuit.wf(),
        passes_wf(circuit@, pass_views(old(passes)@)),
        passes_ok(old(passes)@),
    ensures
        match settled(circuit@, pass_views(old(passes)@)) {
            Ok(s) => {
                &&& r is Ok
                &&& pass_views(final(passes)@) == s
                &&& passes_wf(circuit@, s)
                &&& passes_ok(final(passes)@)
                &&& !must_enter(circuit@, s.last())
            },
            Err(e) => r matches Err(err) && err@ == e,
        },
{
    let ghost nodes = circuit@;
    let ghost goal = settled(nodes, pass_views(passes@));
    loop
        invariant
            circuit.wf(),
            nodes == circuit@,
            passes_wf(nodes, pass_views(passes@)),
            passes_ok(passes@),
            settled(nodes, pass_views(passes@)) == goal,
            goal == settled(nodes, pass_views(old(passes)@)),
        decreases pass_views(passes@).last().root,
    {
        let ghost views = pass_views(passes@);
        let last: usize = passes.len() - 1;
        let top = &passes[last];
        assert(views.last() == top@);
        if top.memo.has(top.root) {
            return Ok(());
        }
        let n = find_next(circuit, top.root, &top.memo);
        proof {
            law_a_pass_runs_each_node_once(nodes, top.root, top.memo@);
        }
        let node = &circuit.nodes[(n - 1) as usize];
        assert(node_at(nodes, n) == node@);
        match &node.operator {
            DbspOperator::Recursive { name, .. } => {
                if node.inputs.len() != 3 {
                    let mut m = "Recursive node '".to_owned();
                    m.append(name.as_str());
                    m.append("' must have exactly 3 inputs, found ");
                    m.append(decimal_usize(node.inputs.len()).as_str());
                    return Err(LimboError::ParseError(m));
                }
                proof {
                    assert(nodes[n - 1].inputs[0] <= n - 1);
                }
                let base = Pass {
                    root: node.inputs[0],
                    memo: Memo::new(),
                    inputs: top.inputs.clone(),
                    fixpoint: Some(Fixpoint { node: n, round: Round::Base }),
                };
                let ghost b = base;
                let ghost old_passes = passes@;
                proof {
                    assert(b@ =~= base_pass(nodes, views.last()));
                }
                passes.push(base);
                proof {
                    lemma_pass_views_push(old_passes, b);
                    let now = pass_views(passes@);
                    assert(now =~= views.push(b@));
                    assert forall|i: int| 0 <= i < now.len() - 1 implies now[i] == views[i] by {}
                    assert forall|i: int| 0 <= i < now.len() implies known(
                        nodes,
                        (#[trigger] now[i]).root,
                    ) by {
                        if i < views.len() {
                            assert(known(nodes, views[i].root));
                        }
                    }
                    assert forall|i: int| 0 < i < now.len() implies {
                        &&& (#[trigger] now[i]).fixpoint is Some
                        &&& complete(nodes, now[i].fixpoint->Some_0.node)
                        &&& now[i].root < now[i].fixpoint->Some_0.node
                        &&& !now[i - 1].memo.dom().contains(now[i - 1].root)
                        &&& now[i].fixpoint->Some_0.node == next_node(
                            nodes,
                            now[i - 1].root,
                            now[i - 1].memo,
                        )
                    } by {
                        if i < views.len() {
                            assert(views[i].fixpoint is Some);
                        }
                    }
                }
            },
            _ => {
                return Ok(());
            },
        }
    }
}

/// Tells what is to be done.
fn choose_action(circuit: &DbspCircuit, passes: &Vec<Pass>, commit: bool) -> (r: Action)
    requires
        circuit.wf(),
        passes_wf(circuit@, pass_views(passes@)),
        passes_ok(passes@),
        !must_enter(circuit@, pass_views(passes@).last()),
    ensures
        r@ == action_of(circuit@, pass_views(passes@), commit),
{
    let last: usize = passes.len() - 1;
    let top = &passes[last];
    assert(pass_views(passes@).last() == top@);
    match top.memo.get(top.root) {
        Some(d) => match top.fixpoint {
            None => Action::Done(d),
            Some(f) => match f.round {
                Round::Base => Action::Initialize { node_id: f.node, base: d },
                _ => Action::Iterate { node_id: f.node, step: d },
            },
        },
        None => {
            let n = find_next(circuit, top.root, &top.memo);
            proof {
                law_a_pass_runs_each_node_once(circuit@, top.root, top.memo@);
            }
            let deltas = gather(circuit, n, &top.memo, &top.inputs);
            Action::Run { node_id: n, deltas, commit }
        },
    }
}

pub open spec fn no_root() -> ErrorView {
    ErrorView::ParseError("Circuit has no root node"@)
}

impl DbspCircuit {
    /// Goes on with a run: carries out what an event changes and tells what is to be done next. An
    /// error ends the run.
    pub fn run_circuit(
        &self,
        execute_state: &mut ExecuteState,
        event: Event,
        commit_operators: bool,
    ) -> (r: Result<Action, LimboError>)
        requires
            self.wf(),
            old(execute_state).wf(self@),
            old(execute_state).expects(self@, event),
        ensures
            match self.root {
                None => {
                    &&& r matches Err(e) && e@ == no_root()
                    &&& *final(execute_state) == *old(execute_state)
                },
                Some(root) => match settled(
                    self@,
                    moved(
                        self@,
                        old(execute_state).passes(root),
                        event,
                        commit_operators && !(self.internal_state_root == 0
                            && self.internal_state_index_root == 0),
                    ),
                ) {
                    Err(e) => {
                        &&& r matches Err(err) && err@ == e
                        &&& *final(execute_state) is Uninitialized
                    },
                    Ok(s) => {
                        &&& *final(execute_state) is Running
                        &&& final(execute_state).wf(self@)
                        &&& final(execute_state).passes(root) == s
                        &&& r matches Ok(a) && a@ == action_of(self@, s, commit_operators)
                    },
                },
            },
    {
        let root = match self.root {
            Some(root) => root,
            None => return Err(parse_error("Circuit has no root node")),
        };
        let ghost start = execute_state.passes(root);
        let mut state = ExecuteState::Uninitialized;
        std::mem::swap(&mut state, execute_state);
        let mut passes = match state {
            ExecuteState::Running { passes } => passes,
            ExecuteState::Init { input_data } => {
                let first = Pass {
                    root,
                    memo: Memo::new(),
                    inputs: input_data,
                    fixpoint: None,
                };
                let ghost f = first;
                let mut v: Vec<Pass> = Vec::new();
                v.push(first);
                assert(pass_views(v@) =~= start);
                v
            },
            ExecuteState::Uninitialized => Vec::new(),
        };
        let stored = commit_operators && !self.is_one_shot();
        match event {
            Event::Resume => {
                assert(moved(self@, start, event, stored) == start);
            },
            Event::Restored => {
                assert(moved(self@, start, event, stored) == start);
            },
            other => {
                apply(self, &mut passes, other, stored);
            },
        }
        match settle(self, &mut passes) {
            Ok(()) => {},
            Err(e) => return Err(e),
        }
        let action = choose_action(self, &passes, commit_operators);
        *execute_state = ExecuteState::Running { passes };
        Ok(action)
    }

    /// What a run has to ask for before it starts: the operators that may have lost their state.
    pub fn before_run(&self, execute_state: &ExecuteState, event: &Event) -> (r: Option<Vec<i64>>)
        requires
            self.wf(),
        ensures
            match r {
                Some(nodes) => asks_for_state(*self, *execute_state, *event) && nodes@
                    == restorable(*self),
                None => !asks_for_state(*self, *execute_state, *event),
            },
    {
        match (execute_state, event) {
            (ExecuteState::Init { .. }, Event::Resume) => {},
            (_, _) => return None,
        }
        if self.main_data_root == 0 {
            return None;
        }
        let nodes = self.recursive_nodes();
        if nodes.len() == 0 {
            return None;
        }
        Some(nodes)
    }

    /// Goes on with a run whose operators commit nothing. The recursive operators of a view that was
    /// opened from disk are given their state back first.
    pub fn execute(&self, execute_state: &mut ExecuteState, event: Event) -> (r: Result<
        Action,
        LimboError,
    >)
        requires
            self.wf(),
            old(execute_state).wf(self@),
            old(execute_state).expects(self@, event),
        ensures
            match self.root {
                None => {
                    &&& r matches Err(e) && e@ == no_root()
                    &&& *final(execute_state) == *old(execute_state)
                },
                Some(root) => if asks_for_state(*self, *old(execute_state), event) {
                    &&& r matches Ok(a) && a@ == (ActionView::Restore { nodes: restorable(*self) })
                    &&& *final(execute_state) == *old(execute_state)
                } else {
                    match settled(
                        self@,
                        moved(self@, old(execute_state).passes(root), event, false),
                    ) {
                        Err(e) => {
                            &&& r matches Err(err) && err@ == e
                            &&& *final(execute_state) is Uninitialized
                        },
                        Ok(s) => {
                            &&& *final(execute_state) is Running
                            &&& final(execute_state).wf(self@)
                            &&& final(execute_state).passes(root) == s
                            &&& r matches Ok(a) && a@ == action_of(self@, s, false)
                        },
                    }
                },
            },
    {
        if self.root.is_some() {
            if let Some(nodes) = self.before_run(execute_state, &event) {
                return Ok(Action::Restore { nodes });
            }
        }
        self.run_circuit(execute_state, event, false)
    }
}

} // verus!
