use vstd::pervasive::arbitrary;
use vstd::prelude::*;

verus! {

/// The states that a sequence of transition outcomes reaches, in order: the
/// `Some` outcomes, with the ignored (`None`) ones left out.
pub open spec fn reached<S>(outcomes: Seq<Option<S>>) -> Seq<S>
    decreases outcomes.len(),
{
    if outcomes.len() == 0 {
        Seq::empty()
    } else {
        let rest = reached(outcomes.drop_last());
        match outcomes.last() {
            Some(s) => rest.push(s),
            None => rest,
        }
    }
}

/// `outcomes[i]` is what `next_state(last, actions[i])` may return, for each `i`.
pub open spec fn outcomes_of<M: Model>(
    model: M,
    last: M::State,
    actions: Seq<M::Action>,
    outcomes: Seq<Option<M::State>>,
) -> bool {
    &&& outcomes.len() == actions.len()
    &&& forall|i: int|
        0 <= i < actions.len() ==> model.transition(last, actions[i], #[trigger] outcomes[i])
}

/// `states` is what `next_states(last)` may return: the outcomes of the enabled
/// actions, taken in the order in which `actions` lists them, without the
/// ignored ones.
pub open spec fn successor_states<M: Model>(model: M, last: M::State, states: Seq<M::State>) -> bool {
    exists|outcomes: Seq<Option<M::State>>|
        #[trigger] outcomes_of(model, last, model.enabled(last), outcomes) && states
            == reached(outcomes)
}

/// The states reached by outcomes taken one after another are those
/// reached by each part: an ignored outcome anywhere drops nothing after it.
pub proof fn lemma_reached_concat<S>(first: Seq<Option<S>>, second: Seq<Option<S>>)
    ensures
        reached(first + second) == reached(first) + reached(second),
    decreases second.len(),
{
    if second.len() == 0 {
        assert(first + second =~= first);
        assert(reached(first) + reached(second) =~= reached(first));
    } else {
        lemma_reached_concat(first, second.drop_last());
        assert((first + second).drop_last() =~= first + second.drop_last());
        assert((first + second).last() == second.last());
        match second.last() {
            Some(s) => {
                assert(reached(first) + reached(second) =~= (reached(first) + reached(
                    second.drop_last(),
                )).push(s));
            },
            None => {},
        }
    }
}

/// One more outcome adds its state, if any, at the end: `Some(s)` adds `s`
/// and `None` adds nothing, whatever came before.
pub proof fn lemma_reached_push<S>(outcomes: Seq<Option<S>>, outcome: Option<S>)
    ensures
        reached(outcomes.push(Some(outcome->0))) == reached(outcomes).push(outcome->0),
        reached(outcomes.push(None)) == reached(outcomes),
{
    assert(outcomes.push(Some(outcome->0)).drop_last() =~= outcomes);
    assert(outcomes.push(None::<S>).drop_last() =~= outcomes);
}

/// Every `Some` outcome is reached: the reached states of the outcomes are
/// those before it, its state, and those after it.
pub proof fn lemma_reached_holds_every_some<S>(outcomes: Seq<Option<S>>, i: int)
    requires
        0 <= i < outcomes.len(),
        outcomes[i] is Some,
    ensures
        reached(outcomes) == reached(outcomes.take(i)).push(outcomes[i]->0) + reached(
            outcomes.skip(i + 1),
        ),
        reached(outcomes).contains(outcomes[i]->0),
{
    let s = outcomes[i]->0;
    lemma_reached_concat(outcomes.take(i), outcomes.skip(i));
    assert(outcomes.take(i) + outcomes.skip(i) =~= outcomes);
    lemma_reached_concat(seq![outcomes[i]], outcomes.skip(i + 1));
    assert(seq![outcomes[i]] + outcomes.skip(i + 1) =~= outcomes.skip(i));
    let single = seq![outcomes[i]];
    assert(single.drop_last() =~= Seq::<Option<S>>::empty());
    assert(single.last() == Some(s));
    assert(reached(Seq::<Option<S>>::empty()) == Seq::<S>::empty());
    assert(reached(single) == reached(single.drop_last()).push(s));
    assert(reached(single) =~= seq![s]);
    let before = reached(outcomes.take(i));
    let after = reached(outcomes.skip(i + 1));
    assert(before + (seq![s] + after) =~= before.push(s) + after);
    assert((before.push(s) + after)[before.len() as int] == s);
}

/// Every reached state is the state of some outcome.
pub proof fn lemma_reached_come_from_outcomes<S>(outcomes: Seq<Option<S>>)
    ensures
        forall|j: int|
            0 <= j < reached(outcomes).len() ==> exists|i: int|
                0 <= i < outcomes.len() && #[trigger] outcomes[i] == Some(#[trigger] reached(outcomes)[j]),
    decreases outcomes.len(),
{
    if outcomes.len() > 0 {
        let front = outcomes.drop_last();
        lemma_reached_come_from_outcomes(front);
        let n = front.len() as int;
        assert forall|j: int| 0 <= j < reached(outcomes).len() implies exists|i: int|
            0 <= i < outcomes.len() && #[trigger] outcomes[i] == Some(#[trigger] reached(outcomes)[j]) by {
            if j < reached(front).len() {
                let i = choose|i: int| 0 <= i < front.len() && #[trigger] front[i] == Some(reached(front)[j]);
                assert(outcomes[i] == front[i]);
                assert(reached(outcomes)[j] == reached(front)[j]);
            } else {
                assert(outcomes[n] == Some(reached(outcomes)[j]));
            }
        }
    }
}

/// Every state that an enabled action leads to is among the successor
/// states, whatever the other actions do.
pub proof fn lemma_successors_hold_every_outcome<M: Model>(
    model: M,
    last: M::State,
    states: Seq<M::State>,
    outcomes: Seq<Option<M::State>>,
)
    requires
        outcomes_of(model, last, model.enabled(last), outcomes),
        states == reached(outcomes),
    ensures
        forall|i: int|
            0 <= i < model.enabled(last).len() && model.transition(last, model.enabled(last)[i], #[trigger] outcomes[i])
                && outcomes[i] is Some ==> states.contains(outcomes[i]->0),
{
    assert forall|i: int|
        0 <= i < model.enabled(last).len() && model.transition(last, model.enabled(last)[i], #[trigger] outcomes[i])
            && outcomes[i] is Some implies states.contains(outcomes[i]->0) by {
        lemma_reached_holds_every_some(outcomes, i);
    }
}

/// What a property asks of the reachable states.
#[derive(Clone, Copy, Debug, PartialEq, Eq)]
pub enum Expectation {
    /// The condition holds in every reachable state; a state where it fails
    /// is a counterexample.
    Always,
    /// The condition holds in some reachable state; such a state is an example.
    Sometimes,
}

/// A named property of a model. Its condition is evaluated by
/// [`Model::property_holds`] with the property's position in
/// [`Model::properties`].
#[derive(Clone, Copy, Debug)]
pub struct Property {
    pub expectation: Expectation,
    pub name: &'static str,
}

impl Property {
    /// A property whose condition must hold in every reachable state.
    pub fn always(name: &'static str) -> (property: Property)
        ensures
            property.expectation == Expectation::Always,
            property.name == name,
    {
        Property { expectation: Expectation::Always, name }
    }

    /// A property whose condition must hold in some reachable state.
    pub fn sometimes(name: &'static str) -> (property: Property)
        ensures
            property.expectation == Expectation::Sometimes,
            property.name == name,
    {
        Property { expectation: Expectation::Sometimes, name }
    }

    /// Whether a state where the condition evaluated to `holds` is a
    /// discovery for this property: a counterexample to an `Always` property,
    /// or an example of a `Sometimes` property.
    pub open spec fn discovered_by(self, holds: bool) -> bool {
        match self.expectation {
            Expectation::Always => !holds,
            Expectation::Sometimes => holds,
        }
    }

    /// Executable form of [`Property::discovered_by`].
    pub fn is_discovered_by(&self, holds: bool) -> (discovered: bool)
        ensures
            discovered == self.discovered_by(holds),
    {
        match self.expectation {
            Expectation::Always => !holds,
            Expectation::Sometimes => holds,
        }
    }
}

/// A run of a model: a sequence of states, each paired with the action that
/// led to it from the state before (`None` for the first state).
pub struct Path<State, Action> {
    steps: Vec<(State, Option<Action>)>,
}

impl<State, Action> View for Path<State, Action> {
    type V = Seq<(State, Option<Action>)>;

    closed spec fn view(&self) -> Seq<(State, Option<Action>)> {
        self.steps@
    }
}

impl<State, Action> Path<State, Action> {
    /// The path with the given steps.
    pub fn from_vec(steps: Vec<(State, Option<Action>)>) -> (path: Self)
        ensures
            path@ == steps@,
    {
        Path { steps }
    }

    /// The steps of the path, first to last.
    pub fn into_vec(self) -> (steps: Vec<(State, Option<Action>)>)
        ensures
            steps@ == self@,
    {
        self.steps
    }

    /// The number of states on the path.
    pub fn len(&self) -> (n: usize)
        ensures
            n == self@.len(),
    {
        self.steps.len()
    }

    /// The last state of the path, if any.
    pub fn last_state(&self) -> (last: Option<&State>)
        ensures
            self@.len() == 0 ==> last is None,
            self@.len() > 0 ==> last == Some(&self@.last().0),
    {
        let n = self.steps.len();
        if n == 0 {
            None
        } else {
            Some(&self.steps[n - 1].0)
        }
    }
}

/// A nondeterministic transition system: the initial states, the actions
/// enabled in each state, and the state that each action leads to.
///
/// The spec functions describe what the executable methods return. A model
/// whose methods are verified against them defines them, with
/// `obeys_model_spec` as `true`; of any other model nothing is promised.
pub trait Model: Sized {
    /// The states of the system.
    type State;

    /// The labels of the transitions.
    type Action;

    /// Whether the executable methods of this model return what its spec
    /// functions describe.
    open spec fn obeys_model_spec() -> bool {
        false
    }

    /// Whether `init_states` may return `states`.
    open spec fn initial(&self, states: Seq<Self::State>) -> bool {
        arbitrary()
    }

    /// The actions that `actions` appends for `state`, in order.
    open spec fn enabled(&self, state: Self::State) -> Seq<Self::Action> {
        arbitrary()
    }

    /// Whether `next_state(last, action)` may return `next`.
    open spec fn transition(
        &self,
        last: Self::State,
        action: Self::Action,
        next: Option<Self::State>,
    ) -> bool {
        arbitrary()
    }

    /// Returns the initial states.
    fn init_states(&self) -> (states: Vec<Self::State>)
        ensures
            Self::obeys_model_spec() ==> self.initial(states@),
    ;

    /// Appends the actions enabled in `state` to `actions`.
    fn actions(&self, state: &Self::State, actions: &mut Vec<Self::Action>)
        ensures
            Self::obeys_model_spec() ==> final(actions)@ == old(actions)@ + self.enabled(*state),
    ;

    /// Returns the state that `action` leads to from `last_state`, or `None`
    /// where the action is ignored.
    fn next_state(&self, last_state: &Self::State, action: Self::Action) -> (next: Option<
        Self::State,
    >)
        ensures
            Self::obeys_model_spec() ==> self.transition(*last_state, action, next),
    ;

    /// The properties to check, in order.
    fn properties(&self) -> (properties: Vec<Property>)
        default_ensures
            properties@ == Seq::<Property>::empty(),
    {
        Vec::new()
    }

    /// Evaluates the condition of the property at position `index` of
    /// `properties` in `state`.
    fn property_holds(&self, index: usize, state: &Self::State) -> (holds: bool)
        default_ensures
            holds,
    {
        true
    }

    /// An SVG drawing of `path`, where the model has one.
    fn as_svg(&self, path: Path<Self::State, Self::Action>) -> (svg: Option<String>)
        default_ensures
            svg is None,
    {
        None
    }
}

/// The states that the enabled actions lead to from `last_state`, in the
/// order of the actions, leaving out the actions that are ignored.
pub fn next_states<M: Model>(model: &M, last_state: &M::State) -> (states: Vec<M::State>)
    ensures
        M::obeys_model_spec() ==> successor_states(*model, *last_state, states@),
{
    let mut actions: Vec<M::Action> = Vec::new();
    model.actions(last_state, &mut actions);
    let ghost enabled = actions@;
    let ghost mut outcomes: Seq<Option<M::State>> = Seq::empty();
    let mut states: Vec<M::State> = Vec::new();
    while actions.len() > 0
        invariant
            M::obeys_model_spec() ==> enabled == model.enabled(*last_state),
            outcomes.len() <= enabled.len(),
            actions@ == enabled.skip(outcomes.len() as int),
            M::obeys_model_spec() ==> forall|i: int|
                0 <= i < outcomes.len() ==> model.transition(
                    *last_state,
                    enabled[i],
                    #[trigger] outcomes[i],
                ),
            states@ == reached(outcomes),
        decreases actions.len(),
    {
        let ghost k = outcomes.len() as int;
        let action = actions.remove(0);
        assert(action == enabled[k]);
        let next = model.next_state(last_state, action);
        proof {
            let previous = outcomes;
            outcomes = outcomes.push(next);
            assert(outcomes.drop_last() == previous);
            assert(enabled.skip(k).remove(0) == enabled.skip(k + 1));
        }
        match next {
            Some(s) => states.push(s),
            None => {},
        }
    }
    assert(M::obeys_model_spec() ==> outcomes_of(
        *model,
        *last_state,
        model.enabled(*last_state),
        outcomes,
    ));
    states
}

} // verus!
