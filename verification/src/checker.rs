use crate::model::{outcomes_of, Expectation, Model, Path, Property};
use crate::svg::{digest_of, fingerprint};
use std::collections::HashSet;
use std::hash::Hash;
use vstd::pervasive::cloned;
use vstd::prelude::*;
use vstd::string::StrSliceExecFns;

verus! {

/// Whether two strings hold the same characters.
pub fn same_text(a: &str, b: &str) -> (same: bool)
    ensures
        same == (a@ == b@),
{
    let n = a.unicode_len();
    if n != b.unicode_len() {
        return false;
    }
    for i in 0..n
        invariant
            n == a@.len(),
            n == b@.len(),
            forall|j: int| 0 <= j < i ==> a@[j] == b@[j],
    {
        if a.get_char(i) != b.get_char(i) {
            return false;
        }
    }
    assert(a@ == b@);
    true
}

/// A visited state and how the search reached it.
pub struct Node<State, Action> {
    pub state: State,
    /// The position of the state it was reached from; `None` for an
    /// initial state.
    pub parent: Option<usize>,
    /// A clone of the action it was reached by; `None` for an initial state.
    pub action: Option<Action>,
}

/// The positions of the nodes from the initial node down to node `n`,
/// following the parents.
pub open spec fn lineage<S, A>(nodes: Seq<Node<S, A>>, n: int) -> Seq<int>
    decreases n,
{
    if n < 0 || n >= nodes.len() {
        Seq::empty()
    } else {
        match nodes[n].parent {
            Some(p) => if p < n {
                lineage(nodes, p as int).push(n)
            } else {
                seq![n]
            },
            None => seq![n],
        }
    }
}

/// Whether `shown` is what a path shows of the recorded action `recorded`
/// of a node: a clone of it, or nothing for a node without one.
pub open spec fn action_recorded<A: Clone>(recorded: Option<A>, shown: Option<A>) -> bool {
    match recorded {
        Some(a) => shown matches Some(b) && cloned(a, b),
        None => shown is None,
    }
}

/// Along the lineage of a node, each node's parent is the node before it,
/// and the first has no parent: the lineage is the chain of steps by which
/// the search reached the node, where every parent comes before its child.
pub proof fn lemma_lineage_follows_parents<S, A>(nodes: Seq<Node<S, A>>, n: int)
    requires
        0 <= n < nodes.len(),
        forall|m: int| 0 <= m < nodes.len() ==> ((#[trigger] nodes[m]).parent matches Some(p) ==> p < m),
    ensures
        lineage(nodes, n).len() > 0,
        lineage(nodes, n).last() == n,
        forall|i: int| 0 <= i < lineage(nodes, n).len() ==> 0 <= #[trigger] lineage(nodes, n)[i] <= n,
        nodes[lineage(nodes, n)[0]].parent is None,
        forall|i: int|
            0 < i < lineage(nodes, n).len() ==> (nodes[#[trigger] lineage(nodes, n)[i]].parent
                matches Some(p) && p as int == lineage(nodes, n)[i - 1]),
    decreases n,
{
    match nodes[n].parent {
        Some(p) => {
            lemma_lineage_follows_parents(nodes, p as int);
            let before = lineage(nodes, p as int);
            assert forall|i: int| 0 < i < lineage(nodes, n).len() implies nodes[#[trigger] lineage(
                nodes,
                n,
            )[i]].parent matches Some(q) && q as int == lineage(nodes, n)[i - 1] by {
                if i < before.len() {
                    assert(lineage(nodes, n)[i] == before[i]);
                    assert(lineage(nodes, n)[i - 1] == before[i - 1]);
                }
            }
            assert(lineage(nodes, n)[0] == before[0]);
            assert forall|i: int| 0 <= i < lineage(nodes, n).len() implies 0 <= #[trigger] lineage(nodes, n)[i] <= n by {
                if i < before.len() {
                    assert(lineage(nodes, n)[i] == before[i]);
                }
            }
        },
        None => {},
    }
}

/// The first position `n < bound` whose verdict on property `p` is a
/// discovery, if there is one.
pub open spec fn first_discovery(
    property: Property,
    verdicts: Seq<Seq<bool>>,
    p: int,
    bound: int,
) -> Option<int>
    decreases bound,
{
    if bound <= 0 {
        None
    } else {
        match first_discovery(property, verdicts, p, bound - 1) {
            Some(n) => Some(n),
            None => if property.discovered_by(verdicts[bound - 1][p]) {
                Some(bound - 1)
            } else {
                None
            },
        }
    }
}

/// Whether node `n` was reached from an earlier node by one of the actions
/// enabled in that node's state, and holds a clone of that action.
pub open spec fn reached_by_step<M: Model>(
    model: M,
    nodes: Seq<Node<M::State, M::Action>>,
    n: int,
) -> bool where M::Action: Clone {
    match nodes[n].parent {
        Some(p) => p < n && {
            let last = nodes[p as int].state;
            let enabled = model.enabled(last);
            exists|i: int|
                {
                    &&& 0 <= i < enabled.len()
                    &&& model.transition(last, #[trigger] enabled[i], Some(nodes[n].state))
                    &&& nodes[n].action matches Some(a) && cloned(enabled[i], a)
                }
        },
        None => false,
    }
}

/// How the nodes of a search hang together: the first `initial_count`
/// nodes hold initial states, taken from what `init_states` returned
/// (`initial_states`), and every later node was reached by a step from an
/// earlier one.
pub open spec fn linked<M: Model>(
    model: M,
    nodes: Seq<Node<M::State, M::Action>>,
    initial_count: int,
    initial_states: Seq<M::State>,
) -> bool where M::Action: Clone {
    &&& 0 <= initial_count <= nodes.len()
    &&& model.initial(initial_states)
    &&& forall|n: int|
        0 <= n < initial_count ==> initial_states.contains((#[trigger] nodes[n]).state)
    &&& forall|n: int|
        initial_count <= n < nodes.len() ==> #[trigger] reached_by_step(model, nodes, n)
}

/// The shape of the nodes of a search: the first `initial_count` nodes have
/// no parent, and every later node has an earlier one as parent.
pub open spec fn structured<S, A>(nodes: Seq<Node<S, A>>, initial_count: int) -> bool {
    &&& 0 <= initial_count <= nodes.len()
    &&& forall|n: int|
        0 <= n < initial_count ==> (#[trigger] nodes[n]).parent is None && nodes[n].action is None
    &&& forall|n: int|
        initial_count <= n < nodes.len() ==> ((#[trigger] nodes[n]).parent matches Some(p) && p < n)
}

/// Appending a node reached by a step keeps the nodes linked.
proof fn lemma_linked_push<M: Model>(
    model: M,
    nodes: Seq<Node<M::State, M::Action>>,
    initial_count: int,
    initial_states: Seq<M::State>,
    node: Node<M::State, M::Action>,
) where M::Action: Clone
    requires
        linked(model, nodes, initial_count, initial_states),
        reached_by_step(model, nodes.push(node), nodes.len() as int),
    ensures
        linked(model, nodes.push(node), initial_count, initial_states),
{
    let longer = nodes.push(node);
    assert forall|n: int| 0 <= n < initial_count implies initial_states.contains(
        (#[trigger] longer[n]).state,
    ) by {
        assert(longer[n] == nodes[n]);
    }
    assert forall|n: int| initial_count <= n < longer.len() implies #[trigger] reached_by_step(
        model,
        longer,
        n,
    ) by {
        if n < nodes.len() {
            assert(reached_by_step(model, nodes, n));
            assert(longer[n] == nodes[n]);
            let p = nodes[n].parent->0 as int;
            assert(longer[p] == nodes[p]);
        }
    }
}

/// Verdicts that agree on the first `bound` nodes give the same first
/// discovery among them, which lies below `bound`.
proof fn lemma_first_discovery_prefix(
    property: Property,
    v1: Seq<Seq<bool>>,
    v2: Seq<Seq<bool>>,
    p: int,
    bound: int,
)
    requires
        forall|i: int| 0 <= i < bound ==> v1[i] == v2[i],
    ensures
        first_discovery(property, v1, p, bound) == first_discovery(property, v2, p, bound),
        first_discovery(property, v1, p, bound) matches Some(n) ==> 0 <= n < bound,
    decreases bound,
{
    if bound > 0 {
        lemma_first_discovery_prefix(property, v1, v2, p, bound - 1);
    }
}

/// The position of the first property at or after `from` whose name is
/// `name`, if any.
pub open spec fn first_named(properties: Seq<Property>, name: Seq<char>, from: int) -> Option<
    int,
>
    decreases properties.len() - from,
{
    if from < 0 || from >= properties.len() {
        None
    } else if properties[from].name@ == name {
        Some(from)
    } else {
        first_named(properties, name, from + 1)
    }
}

/// The first discovery is the first node whose verdict is a discovery:
/// none before it is, and where there is none, no node's verdict is.
pub proof fn lemma_first_discovery_is_first(
    property: Property,
    verdicts: Seq<Seq<bool>>,
    p: int,
    bound: int,
)
    ensures
        first_discovery(property, verdicts, p, bound) matches Some(n) ==> {
            &&& 0 <= n < bound
            &&& property.discovered_by(verdicts[n][p])
            &&& forall|m: int| 0 <= m < n ==> !property.discovered_by(#[trigger] verdicts[m][p])
        },
        first_discovery(property, verdicts, p, bound) is None ==> forall|m: int|
            0 <= m < bound ==> !property.discovered_by(#[trigger] verdicts[m][p]),
    decreases bound,
{
    if bound > 0 {
        lemma_first_discovery_is_first(property, verdicts, p, bound - 1);
    }
}

/// Whether `holds` is a result that `property_holds(p, state)` may return.
pub open spec fn evaluates_to<M: Model>(model: M, p: int, state: M::State, holds: bool) -> bool {
    call_ensures(M::property_holds, (&model, p as usize, &state), holds)
}

/// Whether no value occurs twice in `values`.
pub open spec fn distinct(values: Seq<u64>) -> bool {
    forall|i: int, j: int| 0 <= i < j < values.len() ==> values[i] != values[j]
}

/// A value not yet in `values` keeps them distinct when appended.
proof fn lemma_distinct_push(values: Seq<u64>, value: u64)
    requires
        distinct(values),
        !values.to_set().contains(value),
    ensures
        distinct(values.push(value)),
        values.push(value).to_set() == values.to_set().insert(value),
{
    assert forall|i: int| 0 <= i < values.len() implies values[i] != value by {
        assert(values.to_set().contains(values[i]));
    }
    assert(values.push(value).to_set() =~= values.to_set().insert(value)) by {
        assert forall|v: u64| values.push(value).to_set().contains(v) implies values.to_set().insert(value).contains(v) by {
            let i = choose|i: int| 0 <= i < values.push(value).len() && values.push(value)[i] == v;
            if i < values.len() {
                assert(values[i] == v);
            }
        }
        assert forall|v: u64| values.to_set().insert(value).contains(v) implies values.push(value).to_set().contains(v) by {
            if v == value {
                assert(values.push(value)[values.len() as int] == value);
            } else {
                let i = choose|i: int| 0 <= i < values.len() && values[i] == v;
                assert(values.push(value)[i] == v);
            }
        }
    }
}

/// Whether the fingerprint of `state` is among `digests`: some value that
/// [`fingerprint`] may return for `state` is.
pub open spec fn covered<S: Hash>(state: S, digests: Set<u64>) -> bool {
    exists|d: u64| #[trigger] digest_of(state, d) && digests.contains(d)
}

/// Whether `outcome` is a result that `next_state(last, action)` may return
/// for some action.
pub open spec fn returned_by_next_state<M: Model>(model: M, last: M::State, outcome: Option<M::State>) -> bool {
    exists|action: M::Action| #[trigger] call_ensures(M::next_state, (&model, &last, action), outcome)
}

/// A state covered by some digests is covered by more of them.
proof fn lemma_covered_grows<S: Hash>(state: S, smaller: Set<u64>, larger: Set<u64>)
    requires
        covered(state, smaller),
        smaller.subset_of(larger),
    ensures
        covered(state, larger),
{
    let d = choose|d: u64| #[trigger] digest_of(state, d) && smaller.contains(d);
    assert(digest_of(state, d) && larger.contains(d));
}

/// Configures a search of the states of a model.
pub struct CheckerBuilder<M: Model> {
    model: M,
    target_state_count: usize,
}

/// Starts a search of the states of a model.
pub trait ModelChecking: Model {
    /// A builder for a search of the states of this model, which visits at
    /// most `usize::MAX` states unless told otherwise.
    fn checker(self) -> (builder: CheckerBuilder<Self>)
        ensures
            builder.model() == self,
            builder.target() == usize::MAX,
    ;
}

impl<M: Model> ModelChecking for M {
    fn checker(self) -> (builder: CheckerBuilder<M>) {
        CheckerBuilder::new(self)
    }
}

impl<M: Model> CheckerBuilder<M> {
    /// The model to search.
    pub closed spec fn model(self) -> M {
        self.model
    }

    /// The most states that the search visits.
    pub closed spec fn target(self) -> usize {
        self.target_state_count
    }

    /// A builder for a search of `model` that visits at most `usize::MAX`
    /// states.
    pub fn new(model: M) -> (builder: Self)
        ensures
            builder.model() == model,
            builder.target() == usize::MAX,
    {
        CheckerBuilder { model, target_state_count: usize::MAX }
    }

    /// Stops the search once `count` states have been visited.
    pub fn target_state_count(self, count: usize) -> (builder: Self)
        ensures
            builder.model() == self.model(),
            builder.target() == count,
    {
        CheckerBuilder { model: self.model, target_state_count: count }
    }

    /// Runs a breadth-first search: the initial states first, in the order
    /// of `init_states`, then the states that each visited state leads to,
    /// in the order of its actions. A state whose fingerprint was seen
    /// before is not visited again. The search ends when every reached
    /// state has been visited or the target count of visited states is
    /// reached.
    pub fn spawn_bfs(self) -> (checker: BfsChecker<M>) where M::Action: Clone, M::State: Hash
        ensures
            checker.wf(),
            checker.searched() == self.model(),
            checker.visited() <= self.target(),
            checker.visited() < self.target() ==> checker.done(),
            checker.explored(),
            exists|returned: Vec<M::State>|
                #[trigger] call_ensures(M::init_states, (&self.model(),), returned) && returned@
                    == checker.initial_states(),
            checker.initial_states().len() > 0 ==> checker.nodes().len() > 0,
            exists|properties: Vec<Property>|
                #[trigger] call_ensures(M::properties, (&self.model(),), properties)
                    && properties@ == checker.properties(),
    {
        let model = self.model;
        let target = self.target_state_count;
        let properties = model.properties();
        let mut discoveries: Vec<Option<usize>> = Vec::new();
        for p in 0..properties.len()
            invariant
                discoveries@.len() == p,
                forall|q: int| 0 <= q < p ==> discoveries@[q] is None,
        {
            discoveries.push(None);
        }
        let mut initial = model.init_states();
        let ghost initial_states = initial@;
        let mut nodes: Vec<Node<M::State, M::Action>> = Vec::new();
        let mut generated: HashSet<u64> = HashSet::new();
        let ghost mut fingerprints: Seq<u64> = Seq::empty();
        let ghost mut taken: int = 0;
        while initial.len() > 0
            invariant
                0 <= taken <= initial_states.len(),
                initial@ == initial_states.skip(taken),
                fingerprints.len() == nodes@.len(),
                distinct(fingerprints),
                generated@ == fingerprints.to_set(),
                forall|n: int|
                    0 <= n < nodes.len() ==> initial_states.contains((#[trigger] nodes@[n]).state)
                        && nodes@[n].parent is None && nodes@[n].action is None,
                forall|n: int|
                    0 <= n < nodes.len() ==> digest_of(nodes@[n].state, #[trigger] fingerprints[n]),
                forall|i: int|
                    0 <= i < taken ==> covered(#[trigger] initial_states[i], generated@),
            decreases initial.len(),
        {
            let state = initial.remove(0);
            assert(state == initial_states[taken]);
            assert(initial_states.skip(taken).remove(0) == initial_states.skip(taken + 1));
            let fp = fingerprint(&state);
            let ghost before = fingerprints;
            let ghost before_nodes = nodes@;
            let ghost before_generated = generated@;
            let ghost current = state;
            if generated.insert(fp) {
                nodes.push(Node { state, parent: None, action: None });
                proof {
                    fingerprints = fingerprints.push(fp);
                    lemma_distinct_push(before, fp);
                    assert forall|n: int| 0 <= n < nodes.len() implies digest_of(
                        nodes@[n].state,
                        #[trigger] fingerprints[n],
                    ) by {
                        if n < before_nodes.len() {
                            assert(nodes@[n] == before_nodes[n]);
                        }
                    }
                }
            }
            proof {
                assert(digest_of(current, fp) && generated@.contains(fp));
                assert forall|i: int| 0 <= i <= taken implies covered(
                    #[trigger] initial_states[i],
                    generated@,
                ) by {
                    if i < taken {
                        lemma_covered_grows(initial_states[i], before_generated, generated@);
                    }
                }
                taken = taken + 1;
            }
        }
        let ghost initial_count = nodes.len() as int;
        let mut checker = BfsChecker {
            model,
            properties,
            nodes,
            discoveries,
            generated,
            state_count: 0,
            initial_count: Ghost(initial_count),
            initial_states: Ghost(initial_states),
            fingerprints: Ghost(fingerprints),
            verdicts: Ghost(Seq::empty()),
            outcomes: Ghost(Seq::empty()),
        };
        proof {
            assert(M::obeys_model_spec() ==> linked(
                checker.model,
                checker.nodes@,
                checker.initial_count@,
                checker.initial_states@,
            ));
            assert forall|p: int| 0 <= p < checker.properties@.len() implies #[trigger] checker.discoveries@[p] == match checker.discovery_of(p) {
                Some(n) => Some(n as usize),
                None => None::<usize>,
            } by {
                assert(checker.discovery_of(p) is None);
            }
            if initial_states.len() > 0 {
                let d = choose|d: u64| #[trigger] digest_of(initial_states[0], d) && generated@.contains(d);
                assert(checker.generated().contains(d));
                assert(checker.fingerprints().contains(d));
            }
        }
        while checker.state_count < checker.nodes.len() && checker.state_count < target
            invariant
                checker.wf(),
                checker.explored(),
                checker.searched() == self.model(),
                checker.initial_states() == initial_states,
                initial_states.len() > 0 ==> checker.nodes().len() > 0,
                checker.properties() == properties@,
                checker.state_count <= target,
            decreases target - checker.state_count,
        {
            checker.visit_next();
        }
        checker
    }
}

/// A finished search of the states of a model.
pub struct BfsChecker<M: Model> {
    model: M,
    properties: Vec<Property>,
    nodes: Vec<Node<M::State, M::Action>>,
    discoveries: Vec<Option<usize>>,
    generated: HashSet<u64>,
    state_count: usize,
    initial_count: Ghost<int>,
    initial_states: Ghost<Seq<M::State>>,
    fingerprints: Ghost<Seq<u64>>,
    verdicts: Ghost<Seq<Seq<bool>>>,
    outcomes: Ghost<Seq<Seq<Option<M::State>>>>,
}

impl<M: Model> BfsChecker<M> where M::Action: Clone, M::State: Hash {
    /// The model searched.
    pub closed spec fn searched(self) -> M {
        self.model
    }

    /// The model searched.
    pub fn model(&self) -> (model: &M)
        ensures
            *model == self.searched(),
    {
        &self.model
    }

    /// The properties of the model, as `properties` returned them.
    pub closed spec fn properties(self) -> Seq<Property> {
        self.properties@
    }

    /// The states reached, in the order in which they were reached.
    pub closed spec fn nodes(self) -> Seq<Node<M::State, M::Action>> {
        self.nodes@
    }

    /// The number of states visited: the first `state_count` nodes.
    pub closed spec fn visited(self) -> nat {
        self.state_count as nat
    }

    /// The number of initial states: the first nodes.
    pub closed spec fn initial_count(self) -> int {
        self.initial_count@
    }

    /// `verdicts()[n][p]` is what the condition of property `p` evaluated to
    /// in the state of node `n`, for each visited node.
    pub closed spec fn verdicts(self) -> Seq<Seq<bool>> {
        self.verdicts@
    }

    /// The first visited node that is a discovery for property `p`.
    pub open spec fn discovery_of(self, p: int) -> Option<int> {
        first_discovery(self.properties()[p], self.verdicts(), p, self.visited() as int)
    }

    /// Whether every reached state has been visited.
    pub open spec fn done(self) -> bool {
        self.visited() == self.nodes().len()
    }

    /// What `init_states` returned.
    pub closed spec fn initial_states(self) -> Seq<M::State> {
        self.initial_states@
    }

    /// The fingerprint of the state of each node.
    pub closed spec fn fingerprints(self) -> Seq<u64> {
        self.fingerprints@
    }

    /// The fingerprints seen so far.
    pub closed spec fn generated(self) -> Set<u64> {
        self.generated@
    }

    /// `outcomes()[n]` is what `next_state` returned for each action that
    /// `actions` listed in the state of visited node `n`, in order.
    pub closed spec fn outcomes(self) -> Seq<Seq<Option<M::State>>> {
        self.outcomes@
    }

    /// What the search covers, whatever the model's methods return: the
    /// fingerprint of every state that `init_states` returned, and of every
    /// state that `next_state` returned in a visited node, is the
    /// fingerprint of a node; each outcome is a result of `next_state` on
    /// the node's state; and where the model obeys its spec, the outcomes
    /// of a visited node are those of the actions enabled in its state.
    pub open spec fn explored(self) -> bool {
        &&& forall|i: int|
            0 <= i < self.initial_states().len() ==> covered(
                #[trigger] self.initial_states()[i],
                self.generated(),
            )
        &&& self.outcomes().len() == self.visited()
        &&& forall|m: int, j: int|
            0 <= m < self.visited() && 0 <= j < self.outcomes()[m].len() ==> {
                &&& (#[trigger] self.outcomes()[m][j]) is Some ==> covered(
                    self.outcomes()[m][j]->0,
                    self.generated(),
                )
                &&& returned_by_next_state(
                    self.searched(),
                    self.nodes()[m].state,
                    self.outcomes()[m][j],
                )
            }
        &&& M::obeys_model_spec() ==> forall|m: int|
            0 <= m < self.visited() ==> outcomes_of(
                self.searched(),
                self.nodes()[m].state,
                self.searched().enabled(self.nodes()[m].state),
                #[trigger] self.outcomes()[m],
            )
    }

    /// The discoveries recorded for each property: the position of the
    /// node, if any.
    pub closed spec fn recorded_discoveries(self) -> Seq<Option<usize>> {
        self.discoveries@
    }

    /// The invariant of the search: the nodes are structured as
    /// [`structured`] says, and linked as [`linked`] says where the model
    /// obeys its spec; no two nodes have the same fingerprint; each visited node has, for every property, a verdict
    /// that `property_holds` may return for its state; and the recorded
    /// discoveries are the first ones.
    pub open spec fn wf(self) -> bool {
        &&& structured(self.nodes(), self.initial_count())
        &&& M::obeys_model_spec() ==> linked(
            self.searched(),
            self.nodes(),
            self.initial_count(),
            self.initial_states(),
        )
        &&& self.fingerprints().len() == self.nodes().len()
        &&& forall|n: int|
            0 <= n < self.nodes().len() ==> digest_of(
                self.nodes()[n].state,
                #[trigger] self.fingerprints()[n],
            )
        &&& distinct(self.fingerprints())
        &&& self.generated() == self.fingerprints().to_set()
        &&& self.visited() <= self.nodes().len()
        &&& self.verdicts().len() == self.visited()
        &&& forall|n: int|
            0 <= n < self.visited() ==> (#[trigger] self.verdicts()[n]).len()
                == self.properties().len()
        &&& forall|n: int, p: int|
            0 <= n < self.visited() && 0 <= p < self.properties().len() ==> evaluates_to(
                self.searched(),
                p,
                self.nodes()[n].state,
                #[trigger] self.verdicts()[n][p],
            )
        &&& self.recorded_discoveries().len() == self.properties().len()
        &&& forall|p: int|
            0 <= p < self.properties().len() ==> (#[trigger] self.recorded_discoveries()[p])
                == match self.discovery_of(p) {
                Some(n) => Some(n as usize),
                None => None::<usize>,
            }
    }

    /// Visits the next reached state: evaluates every property in it,
    /// records the first discoveries, and appends the states that it leads to.
    fn visit_next(&mut self)
        requires
            old(self).wf(),
            old(self).explored(),
            old(self).visited() < old(self).nodes().len(),
        ensures
            final(self).wf(),
            final(self).explored(),
            final(self).searched() == old(self).searched(),
            final(self).initial_states() == old(self).initial_states(),
            final(self).properties() == old(self).properties(),
            final(self).visited() == old(self).visited() + 1,
    {
        let n = self.state_count;
        let count = self.nodes.len();
        let ghost old_self = *self;
        let np = self.properties.len();
        let ghost mut row: Seq<bool> = Seq::empty();
        for p in 0..np
            invariant
                np == self.properties@.len(),
                n == self.state_count,
                n < self.nodes@.len(),
                self.model == old_self.model,
                self.properties == old_self.properties,
                self.nodes == old_self.nodes,
                self.verdicts == old_self.verdicts,
                self.initial_count == old_self.initial_count,
                self.initial_states == old_self.initial_states,
                self.fingerprints == old_self.fingerprints,
                self.generated == old_self.generated,
                self.outcomes == old_self.outcomes,
                self.state_count == old_self.state_count,
                old_self.wf(),
                row.len() == p,
                forall|q: int| 0 <= q < p ==> evaluates_to(self.model, q, self.nodes@[n as int].state, #[trigger] row[q]),
                n < count,
                self.discoveries@.len() == np,
                old_self.discoveries@.len() == np,
                forall|q: int|
                    p <= q < np ==> #[trigger] self.discoveries@[q] == old_self.discoveries@[q],
                forall|q: int|
                    0 <= q < p ==> #[trigger] self.discoveries@[q] == match old_self.discoveries@[q] {
                        Some(m) => Some(m),
                        None => if self.properties@[q].discovered_by(row[q]) {
                            Some(n)
                        } else {
                            None::<usize>
                        },
                    },
        {
            let holds = self.model.property_holds(p, &self.nodes[n].state);
            proof {
                row = row.push(holds);
            }
            if self.discoveries[p].is_none() && self.properties[p].is_discovered_by(holds) {
                self.discoveries.set(p, Some(n));
            }
        }
        let ghost verdicts = self.verdicts@.push(row);
        proof {
            assert forall|q: int| 0 <= q < np implies #[trigger] self.discoveries@[q] == match first_discovery(
                self.properties@[q],
                verdicts,
                q,
                n + 1,
            ) {
                Some(m) => Some(m as usize),
                None => None::<usize>,
            } by {
                lemma_first_discovery_prefix(self.properties@[q], self.verdicts@, verdicts, q, n as int);
            }
        }
        self.verdicts = Ghost(verdicts);
        self.state_count = n + 1;
        proof {
            assert forall|m: int, p: int|
                0 <= m < self.state_count && 0 <= p < self.properties@.len() implies evaluates_to(
                    self.model,
                    p,
                    self.nodes@[m].state,
                    #[trigger] self.verdicts@[m][p],
                ) by {
                if m < n {
                    assert(self.verdicts@[m] == old_self.verdicts@[m]);
                    assert(evaluates_to(old_self.model, p, old_self.nodes@[m].state, old_self.verdicts@[m][p]));
                } else {
                    assert(self.verdicts@[m] == row);
                }
            }
            assert(self.wf());
        }
        let mut actions: Vec<M::Action> = Vec::new();
        self.model.actions(&self.nodes[n].state, &mut actions);
        let ghost enabled = actions@;
        let ghost last = self.nodes@[n as int].state;
        let ghost mut k: int = 0;
        let ghost mut row_outcomes: Seq<Option<M::State>> = Seq::empty();
        while actions.len() > 0
            invariant
                self.wf(),
                self.model == old_self.model,
                self.state_count == n + 1,
                n < self.nodes@.len(),
                last == self.nodes@[n as int].state,
                M::obeys_model_spec() ==> enabled == self.model.enabled(last),
                0 <= k <= enabled.len(),
                actions@ == enabled.skip(k),
                self.outcomes == old_self.outcomes,
                self.initial_states == old_self.initial_states,
                self.properties == old_self.properties,
                old_self.generated@.subset_of(self.generated@),
                count == old_self.nodes@.len(),
                count <= self.nodes@.len(),
                forall|m: int| 0 <= m < count ==> #[trigger] self.nodes@[m] == old_self.nodes@[m],
                row_outcomes.len() == k,
                forall|j: int|
                    0 <= j < k ==> {
                        &&& (#[trigger] row_outcomes[j]) is Some ==> covered(
                            row_outcomes[j]->0,
                            self.generated@,
                        )
                        &&& returned_by_next_state(self.model, last, row_outcomes[j])
                    },
                M::obeys_model_spec() ==> forall|j: int|
                    0 <= j < k ==> self.model.transition(last, enabled[j], #[trigger] row_outcomes[j]),
            decreases actions.len(),
        {
            let action = actions.remove(0);
            assert(action == enabled[k]);
            assert(enabled.skip(k).remove(0) == enabled.skip(k + 1));
            let recorded = action.clone();
            let ghost taken = action;
            let next = self.model.next_state(&self.nodes[n].state, action);
            let ghost outcome = next;
            let ghost generated_before = self.generated@;
            proof {
                assert(call_ensures(M::next_state, (&self.model, &last, taken), outcome));
                assert(returned_by_next_state(self.model, last, outcome));
            }
            match next {
                Some(state) => {
                    let fp = fingerprint(&state);
                    proof {
                        assert(digest_of(outcome->0, fp));
                    }
                    let ghost before = self.nodes@;
                    let ghost before_fingerprints = self.fingerprints@;
                    let ghost before_generated = self.generated@;
                    if self.generated.insert(fp) {
                        self.nodes.push(Node { state, parent: Some(n), action: Some(recorded) });
                        proof {
                            self.fingerprints@ = self.fingerprints@.push(fp);
                            lemma_distinct_push(before_fingerprints, fp);
                            assert forall|j: int| 0 <= j < self.nodes@.len() implies digest_of(
                                self.nodes@[j].state,
                                #[trigger] self.fingerprints@[j],
                            ) by {
                                if j < before.len() {
                                    assert(self.nodes@[j] == before[j]);
                                }
                            }
                            assert(cloned(taken, recorded));
                            assert(self.nodes@ == before.push(self.nodes@.last()));
                            if M::obeys_model_spec() {
                                assert(reached_by_step(self.model, self.nodes@, before.len() as int));
                                lemma_linked_push(
                                    self.model,
                                    before,
                                    self.initial_count@,
                                    self.initial_states@,
                                    self.nodes@.last(),
                                );
                            }
                            assert(structured(self.nodes@, self.initial_count@)) by {
                                assert forall|j: int| 0 <= j < before.len() implies #[trigger] self.nodes@[j] == before[j] by {}
                            }
                            assert forall|m: int, p: int|
                                0 <= m < self.state_count && 0 <= p < self.properties@.len() implies evaluates_to(
                                    self.model,
                                    p,
                                    self.nodes@[m].state,
                                    #[trigger] self.verdicts@[m][p],
                                ) by {
                                assert(self.nodes@[m] == before[m]);
                            }
                        }
                    } else {
                        assert(self.generated@ =~= before_generated);
                    }
                    proof {
                        assert(self.generated@.contains(fp));
                        assert(covered(outcome->0, self.generated@));
                    }
                },
                None => {},
            }
            proof {
                assert forall|j: int| 0 <= j < k && (#[trigger] row_outcomes[j]) is Some implies covered(
                    row_outcomes[j]->0,
                    self.generated@,
                ) by {
                    lemma_covered_grows(row_outcomes[j]->0, generated_before, self.generated@);
                }
                row_outcomes = row_outcomes.push(outcome);
                k = k + 1;
            }
        }
        proof {
            assert(k == enabled.len());
            let outcomes = old_self.outcomes@.push(row_outcomes);
            let generated = self.generated@;
            assert forall|i: int| 0 <= i < self.initial_states@.len() implies covered(
                #[trigger] self.initial_states@[i],
                generated,
            ) by {
                assert(covered(old_self.initial_states()[i], old_self.generated()));
                lemma_covered_grows(self.initial_states@[i], old_self.generated@, generated);
            }
            assert forall|m: int, j: int|
                0 <= m < n + 1 && 0 <= j < outcomes[m].len() implies {
                    &&& (#[trigger] outcomes[m][j]) is Some ==> covered(outcomes[m][j]->0, generated)
                    &&& returned_by_next_state(self.model, self.nodes@[m].state, outcomes[m][j])
                } by {
                if m < n {
                    assert(outcomes[m] == old_self.outcomes@[m]);
                    assert(self.nodes@[m] == old_self.nodes@[m]);
                    if outcomes[m][j] is Some {
                        lemma_covered_grows(outcomes[m][j]->0, old_self.generated@, generated);
                    }
                } else {
                    assert(outcomes[m] == row_outcomes);
                    assert(self.nodes@[m] == old_self.nodes@[m]);
                }
            }
            if M::obeys_model_spec() {
                assert forall|m: int| 0 <= m < n + 1 implies outcomes_of(
                    self.model,
                    self.nodes@[m].state,
                    self.model.enabled(self.nodes@[m].state),
                    #[trigger] outcomes[m],
                ) by {
                    assert(self.nodes@[m] == old_self.nodes@[m]);
                    if m < n {
                        assert(outcomes[m] == old_self.outcomes@[m]);
                    } else {
                        assert(outcomes[m] == row_outcomes);
                    }
                }
            }
        }
        self.outcomes = Ghost(old_self.outcomes@.push(row_outcomes));
    }

    /// The position of the first property named `name`, if any.
    pub open spec fn named(self, name: Seq<char>) -> Option<int> {
        first_named(self.properties(), name, 0)
    }

    /// The steps from an initial node down to node `n`, following the
    /// parents, each state and action cloned.
    fn path_steps(&self, n: usize) -> (steps: Vec<(M::State, Option<M::Action>)>) where
        M::State: Clone,
        requires
            n < self.nodes@.len(),
        ensures
            steps@.len() == lineage(self.nodes@, n as int).len(),
            forall|i: int|
                0 <= i < steps@.len() ==> cloned(
                    self.nodes@[lineage(self.nodes@, n as int)[i]].state,
                    #[trigger] steps@[i].0,
                ),
            forall|i: int|
                0 <= i < steps@.len() ==> action_recorded(
                    self.nodes@[lineage(self.nodes@, n as int)[i]].action,
                    #[trigger] steps@[i].1,
                ),
        decreases n,
    {
        let mut steps = match self.nodes[n].parent {
            Some(p) => if p < n {
                self.path_steps(p)
            } else {
                Vec::new()
            },
            None => Vec::new(),
        };
        let node = &self.nodes[n];
        let action = match &node.action {
            Some(a) => Some(a.clone()),
            None => None,
        };
        let state = node.state.clone();
        steps.push((state, action));
        steps
    }

    /// The path to the first discovery of the first property named `name`:
    /// the first visited state where an `Always` property fails, or where a
    /// `Sometimes` property holds. `None` where no property has that name or
    /// it has no discovery.
    pub fn discovery(&self, name: &str) -> (path: Option<Path<M::State, M::Action>>) where
        M::State: Clone,
        requires
            self.wf(),
        ensures
            path is Some <==> (self.named(name@) matches Some(p) && self.discovery_of(p) is Some),
            path matches Some(path) ==> {
                let n = self.discovery_of(self.named(name@)->0)->0;
                let lineage = lineage(self.nodes(), n);
                &&& path@.len() == lineage.len()
                &&& forall|i: int|
                    0 <= i < path@.len() ==> cloned(
                        self.nodes()[lineage[i]].state,
                        #[trigger] path@[i].0,
                    )
                &&& forall|i: int|
                    0 <= i < path@.len() ==> action_recorded(
                        self.nodes()[lineage[i]].action,
                        #[trigger] path@[i].1,
                    )
            },
    {
        let np = self.properties.len();
        let mut p: usize = 0;
        while p < np
            invariant
                self.wf(),
                np == self.properties@.len(),
                p <= np,
                first_named(self.properties@, name@, 0) == first_named(self.properties@, name@, p as int),
            decreases np - p,
        {
            if same_text(self.properties[p].name, name) {
                return match self.discoveries[p] {
                    Some(n) => {
                        proof {
                            lemma_first_discovery_is_first(self.properties@[p as int], self.verdicts@, p as int, self.state_count as int);
                        }
                        Some(Path::from_vec(self.path_steps(n)))
                    },
                    None => None,
                };
            }
            p = p + 1;
        }
        None
    }

    /// Hands back the finished search.
    pub fn join(self) -> (checker: Self)
        ensures
            checker == self,
    {
        self
    }

    /// The number of states visited.
    pub fn state_count(&self) -> (count: usize)
        ensures
            count == self.visited(),
    {
        self.state_count
    }
}

/// Whether `model` steps from `last` to `next` by one of the actions enabled
/// in `last`.
pub open spec fn steps_to<M: Model>(model: M, last: M::State, next: M::State) -> bool {
    exists|i: int|
        0 <= i < model.enabled(last).len() && #[trigger] model.transition(
            last,
            model.enabled(last)[i],
            Some(next),
        )
}

/// Whether `run` starts in one of `initial_states` and each of its states
/// steps to the next.
pub open spec fn is_run<M: Model>(model: M, initial_states: Seq<M::State>, run: Seq<M::State>) -> bool {
    &&& run.len() > 0
    &&& initial_states.contains(run[0])
    &&& forall|k: int| 0 <= k < run.len() - 1 ==> #[trigger] steps_to(model, run[k], run[k + 1])
}

/// Whether `next_state` has at most one outcome for each state and action.
pub open spec fn deterministic<M: Model>(model: M) -> bool {
    forall|last: M::State, action: M::Action, a: Option<M::State>, b: Option<M::State>|
        #![trigger model.transition(last, action, a), model.transition(last, action, b)]
        model.transition(last, action, a) && model.transition(last, action, b) ==> a == b
}

/// Whether no state on a run from the initial states of a search shares a
/// fingerprint with the state of a different node: the states whose
/// fingerprint the search takes as already seen are the states seen.
pub open spec fn runs_without_collisions<M: Model>(checker: BfsChecker<M>) -> bool where
    M::Action: Clone,
    M::State: Hash,
 {
    forall|run: Seq<M::State>, k: int, n: int|
        #![trigger is_run(checker.searched(), checker.initial_states(), run), digest_of(run[k], checker.fingerprints()[n])]
        is_run(checker.searched(), checker.initial_states(), run) && 0 <= k < run.len() && 0 <= n
            < checker.nodes().len() && digest_of(run[k], checker.fingerprints()[n]) ==> run[k]
            == checker.nodes()[n].state
}

/// A state on a run whose fingerprint the search has seen is the state of a
/// node, where no state on a run collides with a different node.
proof fn lemma_covered_state_is_node<M: Model>(checker: BfsChecker<M>, run: Seq<M::State>, k: int) -> (n: int) where
    M::Action: Clone,
    M::State: Hash,
    requires
        checker.wf(),
        runs_without_collisions(checker),
        is_run(checker.searched(), checker.initial_states(), run),
        0 <= k < run.len(),
        covered(run[k], checker.generated()),
    ensures
        0 <= n < checker.nodes().len(),
        checker.nodes()[n].state == run[k],
{
    let state = run[k];
    let d = choose|d: u64| #[trigger] digest_of(state, d) && checker.generated().contains(d);
    assert(checker.fingerprints().to_set().contains(d));
    let n = choose|n: int| 0 <= n < checker.fingerprints().len() && checker.fingerprints()[n] == d;
    assert(digest_of(checker.nodes()[n].state, checker.fingerprints()[n]));
    n
}

/// A finished search visits every state on every run from the initial
/// states that `init_states` returned, where the model obeys its spec, its
/// `next_state` has one outcome per state and action, and no state on a run
/// shares a fingerprint with the state of a different node.
pub proof fn lemma_search_covers_runs<M: Model>(checker: BfsChecker<M>, run: Seq<M::State>, k: int) where
    M::Action: Clone,
    M::State: Hash,
    requires
        checker.wf(),
        checker.explored(),
        checker.done(),
        M::obeys_model_spec(),
        deterministic(checker.searched()),
        runs_without_collisions(checker),
        is_run(checker.searched(), checker.initial_states(), run),
        0 <= k < run.len(),
    ensures
        exists|n: int| 0 <= n < checker.visited() && #[trigger] checker.nodes()[n].state == run[k],
    decreases k,
{
    let model = checker.searched();
    if k == 0 {
        let i = choose|i: int|
            0 <= i < checker.initial_states().len() && checker.initial_states()[i] == run[0];
        assert(covered(checker.initial_states()[i], checker.generated()));
        let n = lemma_covered_state_is_node(checker, run, 0);
        assert(checker.nodes()[n].state == run[k]);
    } else {
        lemma_search_covers_runs(checker, run, k - 1);
        let m = choose|m: int| 0 <= m < checker.visited() && #[trigger] checker.nodes()[m].state == run[k - 1];
        let last = run[k - 1];
        let j = k - 1;
        assert(steps_to(model, run[j], run[j + 1]));
        assert(run[j + 1] == run[k]);
        let i = choose|i: int|
            0 <= i < model.enabled(last).len() && #[trigger] model.transition(
                last,
                model.enabled(last)[i],
                Some(run[k]),
            );
        let outs = checker.outcomes()[m];
        assert(outcomes_of(model, checker.nodes()[m].state, model.enabled(checker.nodes()[m].state), outs));
        assert(model.transition(last, model.enabled(last)[i], outs[i]));
        assert(outs[i] == Some(run[k]));
        assert(covered(outs[i]->0, checker.generated()));
        let n = lemma_covered_state_is_node(checker, run, k);
        assert(checker.nodes()[n].state == run[k]);
    }
}

/// The state of every node ends a run from the initial states that
/// `init_states` returned, where the model obeys its spec.
pub proof fn lemma_nodes_are_reached<M: Model>(checker: BfsChecker<M>, n: int) where
    M::Action: Clone,
    M::State: Hash,
    requires
        checker.wf(),
        M::obeys_model_spec(),
        0 <= n < checker.nodes().len(),
    ensures
        exists|run: Seq<M::State>|
            #[trigger] is_run(checker.searched(), checker.initial_states(), run) && run.last()
                == checker.nodes()[n].state,
    decreases n,
{
    let model = checker.searched();
    let nodes = checker.nodes();
    let state = nodes[n].state;
    if n < checker.initial_count() {
        assert(checker.initial_states().contains(nodes[n].state));
        let run = seq![state];
        assert(is_run(model, checker.initial_states(), run));
    } else {
        assert(reached_by_step(model, nodes, n));
        let p = nodes[n].parent->0 as int;
        lemma_nodes_are_reached(checker, p);
        let previous = choose|run: Seq<M::State>|
            #[trigger] is_run(model, checker.initial_states(), run) && run.last() == nodes[p].state;
        let run = previous.push(state);
        assert(steps_to(model, nodes[p].state, state));
        assert forall|k: int| 0 <= k < run.len() - 1 implies #[trigger] steps_to(model, run[k], run[k + 1]) by {
            if k < previous.len() - 1 {
                assert(steps_to(model, previous[k], previous[k + 1]));
            }
        }
        assert(is_run(model, checker.initial_states(), run));
    }
}

/// The verdict of a finished search on an `Always` property, where the
/// model obeys its spec, its `next_state` has one outcome per state and
/// action, and no state on a run shares a fingerprint with the state of a
/// different node: where there is no
/// discovery, the condition evaluated to `true` in every state on every run
/// from the initial states; where there is one, its state ends such a run
/// and the condition evaluated to `false` in it.
pub proof fn lemma_always_verdict<M: Model>(checker: BfsChecker<M>, p: int) where
    M::Action: Clone,
    M::State: Hash,
    requires
        checker.wf(),
        checker.explored(),
        checker.done(),
        M::obeys_model_spec(),
        deterministic(checker.searched()),
        runs_without_collisions(checker),
        0 <= p < checker.properties().len(),
        checker.properties()[p].expectation == Expectation::Always,
    ensures
        checker.discovery_of(p) is None ==> forall|run: Seq<M::State>, k: int|
            #![trigger is_run(checker.searched(), checker.initial_states(), run), run[k]]
            is_run(checker.searched(), checker.initial_states(), run) && 0 <= k < run.len()
                ==> evaluates_to(checker.searched(), p, run[k], true),
        checker.discovery_of(p) matches Some(n) ==> exists|run: Seq<M::State>|
            #[trigger] is_run(checker.searched(), checker.initial_states(), run) && run.last()
                == checker.nodes()[n].state && evaluates_to(checker.searched(), p, run.last(), false),
{
    let property = checker.properties()[p];
    lemma_first_discovery_is_first(property, checker.verdicts(), p, checker.visited() as int);
    if checker.discovery_of(p) is None {
        assert forall|run: Seq<M::State>, k: int|
            is_run(checker.searched(), checker.initial_states(), run) && 0 <= k < run.len()
            implies #[trigger] evaluates_to(checker.searched(), p, run[k], true) by {
            lemma_search_covers_runs(checker, run, k);
            let n = choose|n: int| 0 <= n < checker.visited() && #[trigger] checker.nodes()[n].state == run[k];
            assert(!property.discovered_by(checker.verdicts()[n][p]));
            assert(evaluates_to(checker.searched(), p, checker.nodes()[n].state, checker.verdicts()[n][p]));
        }
    } else {
        let n = checker.discovery_of(p)->0;
        lemma_nodes_are_reached(checker, n);
        assert(evaluates_to(checker.searched(), p, checker.nodes()[n].state, checker.verdicts()[n][p]));
    }
}

/// The path to a node is a run of the model taken step by step: its first
/// node is an initial state without an action, and every later node holds
/// the state that an action enabled in the node before leads to, together
/// with a clone of that action, where the model obeys its spec.
#[verifier::rlimit(40)]
pub proof fn lemma_lineage_is_a_run<M: Model>(checker: BfsChecker<M>, n: int) where
    M::Action: Clone,
    M::State: Hash,
    requires
        checker.wf(),
        M::obeys_model_spec(),
        0 <= n < checker.nodes().len(),
    ensures
        checker.nodes()[lineage(checker.nodes(), n)[0]].action is None,
        checker.initial_states().contains(checker.nodes()[lineage(checker.nodes(), n)[0]].state),
        forall|i: int|
            0 < i < lineage(checker.nodes(), n).len() ==> {
                let last = checker.nodes()[lineage(checker.nodes(), n)[i - 1]].state;
                let node = checker.nodes()[#[trigger] lineage(checker.nodes(), n)[i]];
                let enabled = checker.searched().enabled(last);
                exists|j: int|
                    0 <= j < enabled.len() && #[trigger] checker.searched().transition(
                        last,
                        enabled[j],
                        Some(node.state),
                    ) && (node.action matches Some(a) && cloned(enabled[j], a))
            },
{
    let nodes = checker.nodes();
    let model = checker.searched();
    assert forall|m: int| 0 <= m < nodes.len() implies ((#[trigger] nodes[m]).parent matches Some(p) ==> p < m) by {
        if m >= checker.initial_count() {
            assert(nodes[m].parent matches Some(p) && p < m);
        }
    }
    lemma_lineage_follows_parents(nodes, n);
    let line = lineage(nodes, n);
    assert(line[0] < checker.initial_count()) by {
        if line[0] >= checker.initial_count() {
            assert(nodes[line[0]].parent matches Some(p) && p < line[0]);
        }
    }
    assert forall|i: int| 0 < i < line.len() implies {
        let last = nodes[line[i - 1]].state;
        let node = nodes[#[trigger] line[i]];
        let enabled = model.enabled(last);
        exists|j: int|
            0 <= j < enabled.len() && #[trigger] model.transition(last, enabled[j], Some(node.state))
                && (node.action matches Some(a) && cloned(enabled[j], a))
    } by {
        let m = line[i];
        assert(nodes[m].parent matches Some(q) && q as int == line[i - 1]);
        assert(m >= checker.initial_count()) by {
            if m < checker.initial_count() {
                assert(nodes[m].parent is None);
            }
        }
        assert(reached_by_step(model, nodes, m));
        let p = line[i - 1];
        assert(0 <= p);
        let pu = nodes[m].parent->0;
        assert(pu as int == p);
        let last = nodes[pu as int].state;
        assert(exists|j: int|
            {
                &&& 0 <= j < model.enabled(last).len()
                &&& model.transition(last, #[trigger] model.enabled(last)[j], Some(nodes[m].state))
                &&& nodes[m].action matches Some(a) && cloned(model.enabled(last)[j], a)
            });
    }
}

} // verus!
