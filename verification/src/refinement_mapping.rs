use crate::text::{escape_html, escaped};
use vstd::string::StringExecFns;
use crate::model::{next_states, successor_states, Expectation, Model, Path, Property};
use crate::checker::{deterministic, evaluates_to, first_named, is_run, runs_without_collisions, lemma_always_verdict, BfsChecker};
use crate::svg::{
    build_title, describe, fingerprint, fingerprint_layer, first_match, layer_reps,
    layer_slots, numbered, same_fingerprint, NodeMeta,
};
use crate::svg::{is_equivalence, lemma_layer_classes, lemma_first_match_at, lemma_first_match_bound, lemma_layer_push, lemma_title_prefix, title_text, decimal, same_observation, described, digest_of, opens, observation_layer, render_svg, SvgLayout};
use core::marker::PhantomData;
use std::fmt::Debug;
use std::hash::Hash;
use std::collections::HashMap;
use crate::tags::{lemma_rendering_node_count, node_tag, occurrences};
use vstd::pervasive::{arbitrary, cloned};
use vstd::prelude::*;
use vstd::std_specs::cmp::PartialEqSpec;

verus! {

/// A refinement mapping from concrete model `C` into abstract model `A`.
///
/// A refinement mapping is defined by:
///
/// - an [`AuxState`](Self::AuxState) that evolves alongside the concrete
///   execution (auxiliary variables in the sense of Abadi and Lamport,
///   "The Existence of Refinement Mappings", 1991);
/// - [`refinement_map`](Self::refinement_map): the function `f` that picks
///   the abstract-state representative for a given `(concrete, aux)` pair;
/// - [`Observable`](Self::Observable) and [`observe`](Self::observe): the
///   observable interface, the contract that the refinement preserves. The
///   refinement check compares only observations, so `Observable` names
///   what the concrete is required to simulate about the abstract.
///
/// Strict L-simulation is the special case where
/// `type Observable = A::State` and `fn observe(a) { a.clone() }`: every
/// field of the mapped abstract state is part of the contract. Choosing a
/// smaller `Observable` projects internal bookkeeping out of the check.
///
/// The spec functions describe what the executable methods return. A mapping
/// whose methods are verified against them defines them, with
/// `obeys_mapping_spec` as `true`; of any other mapping nothing is promised.
pub trait RefinementMapping<C: Model, A: Model>: Sized {
    /// Auxiliary or history state carried alongside the concrete execution.
    /// Needed whenever the refinement mapping cannot be determined from
    /// the current concrete state alone.
    type AuxState;

    /// The observable interface: the contract that the refinement preserves.
    type Observable: Clone + Eq + Debug;

    /// Whether the executable methods of this mapping return what its spec
    /// functions describe.
    open spec fn obeys_mapping_spec() -> bool {
        false
    }

    /// The abstract model that `abstract_model` returns.
    open spec fn spec_abstract_model(&self) -> A {
        arbitrary()
    }

    /// The auxiliary state that `init_aux_state` returns.
    open spec fn spec_init_aux_state(&self, concrete: C::State) -> Self::AuxState {
        arbitrary()
    }

    /// The auxiliary state that `advance_aux_state` returns.
    open spec fn spec_advance_aux_state(
        &self,
        last_concrete: C::State,
        last_aux: Self::AuxState,
        action: C::Action,
        next_concrete: C::State,
    ) -> Self::AuxState {
        arbitrary()
    }

    /// The abstract state that `refinement_map` returns.
    open spec fn spec_refinement_map(&self, concrete: C::State, aux: Self::AuxState) -> A::State {
        arbitrary()
    }

    /// The observation that `observe` returns.
    open spec fn spec_observe(&self, a: A::State) -> Self::Observable {
        arbitrary()
    }

    /// The abstract model that the concrete model is checked against.
    fn abstract_model(&self) -> (model: &A)
        ensures
            Self::obeys_mapping_spec() ==> *model == self.spec_abstract_model(),
    ;

    /// The auxiliary state that accompanies an initial concrete state.
    fn init_aux_state(&self, concrete: &C::State) -> (aux: Self::AuxState)
        ensures
            Self::obeys_mapping_spec() ==> aux == self.spec_init_aux_state(*concrete),
    ;

    /// The auxiliary state after a concrete transition.
    fn advance_aux_state(
        &self,
        last_concrete: &C::State,
        last_aux: &Self::AuxState,
        action: &C::Action,
        next_concrete: &C::State,
    ) -> (aux: Self::AuxState)
        ensures
            Self::obeys_mapping_spec() ==> aux == self.spec_advance_aux_state(
                *last_concrete,
                *last_aux,
                *action,
                *next_concrete,
            ),
    ;

    /// The refinement mapping `f`: picks the abstract-state representative
    /// for this `(concrete, aux)` pair. The check needs a concrete `A::State`
    /// to ask the abstract model for its next states.
    fn refinement_map(&self, concrete: &C::State, aux: &Self::AuxState) -> (mapped: A::State)
        ensures
            Self::obeys_mapping_spec() ==> mapped == self.spec_refinement_map(*concrete, *aux),
    ;

    /// Projects an abstract state to its observable interface. Called on
    /// both sides of the refinement check: concrete observations flow through
    /// `observe(refinement_map(c, aux))`, abstract observations through
    /// `observe(a)` directly.
    fn observe(&self, a: &A::State) -> (observation: Self::Observable)
        ensures
            Self::obeys_mapping_spec() ==> observation == self.spec_observe(*a),
    ;
}

/// A state of a [`RefinementModel`]: a concrete state, its auxiliary state,
/// the abstract state that the mapping assigns to them, and the mapped
/// abstract state of the step before.
#[derive(Debug, Clone, Hash, PartialEq, PartialOrd)]
pub struct RefinementModelState<C, A, Mapping> where
    C: Model,
    A: Model,
    Mapping: RefinementMapping<C, A>,
 {
    concrete_state: C::State,
    aux_state: Mapping::AuxState,
    mapped_abstract_state: A::State,
    // Since "always" properties are checked after every state transition, we
    // only need the previous and current mapped abstract states to verify
    // simulation. `prev` is `None` at initial states; non-`None` afterwards.
    prev_mapped_abstract_state: Option<A::State>,
    // Debug aid: all possible next abstract states reachable from the
    // previous mapped abstract state via the abstract model. Useful for
    // diagnosing which abstract transition (if any) matched.
    debug_from_prev_all: Vec<A::State>,
}

impl<C, A, Mapping> RefinementModelState<C, A, Mapping> where
    C: Model,
    A: Model,
    Mapping: RefinementMapping<C, A>,
 {
    /// The concrete state.
    pub closed spec fn concrete(self) -> C::State {
        self.concrete_state
    }

    /// The auxiliary state that accompanies the concrete state.
    pub closed spec fn aux(self) -> Mapping::AuxState {
        self.aux_state
    }

    /// The abstract state that the mapping assigns to the concrete state.
    pub closed spec fn mapped(self) -> A::State {
        self.mapped_abstract_state
    }

    /// The mapped abstract state of the step before; `None` in an initial state.
    pub closed spec fn prev_mapped(self) -> Option<A::State> {
        self.prev_mapped_abstract_state
    }

    /// The abstract states that the abstract model reaches in one step from
    /// the previous mapped abstract state (empty in an initial state).
    pub closed spec fn candidates(self) -> Seq<A::State> {
        self.debug_from_prev_all@
    }

    /// The concrete state.
    pub fn concrete_state(&self) -> (concrete: &C::State)
        ensures
            *concrete == self.concrete(),
    {
        &self.concrete_state
    }

    /// The auxiliary state.
    pub fn aux_state(&self) -> (aux: &Mapping::AuxState)
        ensures
            *aux == self.aux(),
    {
        &self.aux_state
    }

    /// The mapped abstract state.
    pub fn mapped_abstract_state(&self) -> (mapped: &A::State)
        ensures
            *mapped == self.mapped(),
    {
        &self.mapped_abstract_state
    }

    /// The mapped abstract state of the step before, if any.
    pub fn prev_mapped_abstract_state(&self) -> (prev: &Option<A::State>)
        ensures
            *prev == self.prev_mapped(),
    {
        &self.prev_mapped_abstract_state
    }

    /// The abstract states reachable in one step from the previous mapped
    /// abstract state.
    pub fn abstract_candidates_from_prev(&self) -> (candidates: &Vec<A::State>)
        ensures
            candidates@ == self.candidates(),
    {
        &self.debug_from_prev_all
    }
}

/// A model whose states pair the states of a concrete model with their image
/// under a refinement mapping, and whose `check_simulation` property holds in
/// every reachable state exactly when the concrete model weakly simulates
/// the abstract one on the observable interface.
#[derive(Debug)]
pub struct RefinementModel<C, A, Mapping> where
    C: Model,
    A: Model,
    Mapping: RefinementMapping<C, A>,
 {
    concrete: C,
    mapper: Mapping,
    _phantom: PhantomData<A>,
}

impl<C, A, Mapping> RefinementModel<C, A, Mapping> where
    C: Model,
    A: Model,
    Mapping: RefinementMapping<C, A>,
 {
    /// The concrete model.
    pub closed spec fn concrete_model(self) -> C {
        self.concrete
    }

    /// The refinement mapping.
    pub closed spec fn mapper(self) -> Mapping {
        self.mapper
    }

    /// The abstract model of the mapping.
    pub open spec fn abstract_spec(self) -> A {
        self.mapper().spec_abstract_model()
    }

    /// The observation of the mapped abstract state of `state`.
    pub open spec fn observation(self, state: RefinementModelState<C, A, Mapping>) -> Mapping::Observable {
        self.mapper().spec_observe(state.mapped())
    }

    /// Whether `state` is the state that an initial concrete state starts as.
    pub open spec fn lifts_initial(
        self,
        concrete: C::State,
        state: RefinementModelState<C, A, Mapping>,
    ) -> bool {
        let aux = self.mapper().spec_init_aux_state(concrete);
        &&& state.concrete() == concrete
        &&& state.aux() == aux
        &&& state.mapped() == self.mapper().spec_refinement_map(concrete, aux)
        &&& state.prev_mapped() is None
        &&& state.candidates() == Seq::<A::State>::empty()
    }

    /// Whether `next` is the state that `last` steps to by `action`, given
    /// its concrete state: the auxiliary state advances, the new concrete
    /// state is mapped, the previous mapped abstract state is remembered
    /// (as a clone), and the abstract successors of the latter are recorded.
    pub open spec fn lifts_step(
        self,
        last: RefinementModelState<C, A, Mapping>,
        action: C::Action,
        next: RefinementModelState<C, A, Mapping>,
    ) -> bool where A::State: Clone {
        let aux = self.mapper().spec_advance_aux_state(
            last.concrete(),
            last.aux(),
            action,
            next.concrete(),
        );
        &&& next.aux() == aux
        &&& next.mapped() == self.mapper().spec_refinement_map(next.concrete(), aux)
        &&& next.prev_mapped() matches Some(prev) && cloned(last.mapped(), prev)
        &&& successor_states(self.abstract_spec(), last.mapped(), next.candidates())
    }

    /// Whether `state` is what the initial concrete state `concrete` starts
    /// as, by what the mapping's methods returned: its auxiliary state is
    /// what `init_aux_state` returned for it, its mapped abstract state what
    /// `refinement_map` returned for the two, with no previous mapped
    /// abstract state and no candidates.
    pub open spec fn starts_as(self, concrete: C::State, state: RefinementModelState<C, A, Mapping>) -> bool {
        &&& state.concrete() == concrete
        &&& call_ensures(Mapping::init_aux_state, (&self.mapper(), &concrete), state.aux())
        &&& call_ensures(
            Mapping::refinement_map,
            (&self.mapper(), &concrete, &state.aux()),
            state.mapped(),
        )
        &&& state.prev_mapped() is None
        &&& state.candidates() == Seq::<A::State>::empty()
    }

    /// Whether `next` is what `last` steps to by `action`, by what the
    /// models' and the mapping's methods returned: the concrete model took a
    /// clone of `action` to the concrete state of `next`, its auxiliary
    /// state is what `advance_aux_state` returned, its mapped abstract state
    /// what `refinement_map` returned, and it remembers a clone of the
    /// mapped abstract state of `last`.
    pub open spec fn steps_as(
        self,
        last: RefinementModelState<C, A, Mapping>,
        action: C::Action,
        next: RefinementModelState<C, A, Mapping>,
    ) -> bool where A::State: Clone, C::Action: Clone {
        &&& exists|concrete_action: C::Action|
            #[trigger] cloned(action, concrete_action) && call_ensures(
                C::next_state,
                (&self.concrete_model(), &last.concrete(), concrete_action),
                Some(next.concrete()),
            )
        &&& call_ensures(
            Mapping::advance_aux_state,
            (&self.mapper(), &last.concrete(), &last.aux(), &action, &next.concrete()),
            next.aux(),
        )
        &&& call_ensures(
            Mapping::refinement_map,
            (&self.mapper(), &next.concrete(), &next.aux()),
            next.mapped(),
        )
        &&& next.prev_mapped() matches Some(prev) && cloned(last.mapped(), prev)
    }

    /// Whether some state of `candidates` has an observation equal to `target`.
    pub open spec fn observed_among(
        self,
        candidates: Seq<A::State>,
        target: Mapping::Observable,
    ) -> bool {
        exists|i: int|
            0 <= i < candidates.len() && self.mapper().spec_observe(#[trigger] candidates[i]).eq_spec(
                &target,
            )
    }

    /// Whether `state` stutters on the observable: its previous mapped
    /// abstract state has the same observation as its current one.
    pub open spec fn stutters(self, state: RefinementModelState<C, A, Mapping>) -> bool {
        state.prev_mapped() matches Some(prev) && self.mapper().spec_observe(prev).eq_spec(
            &self.observation(state),
        )
    }

    /// Whether `candidates` is what the abstract model offers to match
    /// `state` against: the successors of the previous mapped abstract
    /// state, or the initial abstract states in an initial state.
    pub open spec fn abstract_candidates(
        self,
        state: RefinementModelState<C, A, Mapping>,
        candidates: Seq<A::State>,
    ) -> bool {
        match state.prev_mapped() {
            Some(prev) => successor_states(self.abstract_spec(), prev, candidates),
            None => self.abstract_spec().initial(candidates),
        }
    }

    /// Weak L-simulation on the observable, for one step: `state` stutters
    /// on the observable, or one of the abstract `candidates` has the
    /// observation of the mapped abstract state of `state`.
    pub open spec fn simulation_verdict(
        self,
        state: RefinementModelState<C, A, Mapping>,
        candidates: Seq<A::State>,
    ) -> bool {
        self.stutters(state) || self.observed_among(candidates, self.observation(state))
    }

    /// Whether the abstract model and the mapping return what their spec
    /// functions describe, and observations compare by `eq_spec`: what the
    /// contract of [`check_simulation`](Self::check_simulation) rests on.
    pub open spec fn obeys_check_spec(self) -> bool {
        &&& A::obeys_model_spec()
        &&& Mapping::obeys_mapping_spec()
        &&& Mapping::Observable::obeys_eq_spec()
    }

    /// Whether `ok` is what [`check_simulation`](Self::check_simulation)
    /// may return for `state`: where the abstract model, the mapping and
    /// the observations obey their specs, `true` on a stutter, and
    /// otherwise whether the candidates that the abstract model offers
    /// hold the current observation.
    pub open spec fn check_outcome(self, state: RefinementModelState<C, A, Mapping>, ok: bool) -> bool {
        self.obeys_check_spec() ==> if self.stutters(state) {
            ok
        } else {
            exists|candidates: Seq<A::State>|
                #[trigger] self.abstract_candidates(state, candidates) && ok == self.observed_among(
                    candidates,
                    self.observation(state),
                )
        }
    }

    /// Creates the refinement model of `concrete` under `mapper`.
    pub fn new(concrete: C, mapper: Mapping) -> (model: Self)
        ensures
            model.concrete_model() == concrete,
            model.mapper() == mapper,
    {
        Self { concrete, mapper, _phantom: PhantomData }
    }

    /// Escapes `input` for the text and attribute values of the drawing:
    /// `&`, `<`, `>`, `"` and `'` become character references.
    pub fn escape_html(input: &str) -> (escaped_text: String)
        ensures
            escaped_text@ == escaped(input@),
    {
        escape_html(input)
    }

    /// Whether some state of `candidates` has an observation equal to
    /// `target`: the search that [`check_simulation`](Self::check_simulation)
    /// runs over the abstract states it fetched.
    pub fn observed_in(&self, candidates: &Vec<A::State>, target: &Mapping::Observable) -> (found:
        bool)
        ensures
            Mapping::obeys_mapping_spec() && Mapping::Observable::obeys_eq_spec() ==> found
                == self.observed_among(
                candidates@,
                *target,
            ),
    {
        let n = candidates.len();
        for i in 0..n
            invariant
                n == candidates@.len(),
                forall|j: int|
                    0 <= j < i ==> !(Mapping::obeys_mapping_spec() && Mapping::Observable::obeys_eq_spec()
                        && self.mapper().spec_observe(
                        #[trigger] candidates@[j],
                    ).eq_spec(target)),
        {
            let observation = self.mapper.observe(&candidates[i]);
            if observation == *target {
                return true;
            }
        }
        false
    }

    /// Checks one step of the refinement:
    ///
    /// ```text
    /// (prev_mapped_abstract) ------ abstract transition -----> (cur_mapped_abstract)
    ///          ^                                                        ^
    ///          f                                                        f
    ///          |                                                        |
    /// (prev_concrete, prev_aux) --- concrete transition --> (cur_concrete, cur_aux)
    /// ```
    ///
    /// Weak L-simulation on `Observable`: the observation of the previous
    /// mapped abstract state equals that of the current one (a stutter), or
    /// some abstract transition from the previous mapped abstract state
    /// leads to a state with the current observation. In an initial state,
    /// some initial abstract state has the current observation.
    pub fn check_simulation(model: &Self, state: &RefinementModelState<C, A, Mapping>) -> (ok: bool)
        ensures
            model.check_outcome(*state, ok),
    {
        let abstract_model = model.mapper.abstract_model();
        let cur_abs = &state.mapped_abstract_state;
        let cur_obs = model.mapper.observe(cur_abs);
        match &state.prev_mapped_abstract_state {
            Some(prev_abs) => {
                if model.mapper.observe(prev_abs) == cur_obs {
                    // stutter on the observable
                    return true;
                }
                let candidates = next_states(abstract_model, prev_abs);
                let found = model.observed_in(&candidates, &cur_obs);
                assert(model.obeys_check_spec() ==> model.abstract_candidates(*state, candidates@));
                found
            },
            None => {
                let candidates = abstract_model.init_states();
                let found = model.observed_in(&candidates, &cur_obs);
                assert(model.obeys_check_spec() ==> model.abstract_candidates(*state, candidates@));
                found
            },
        }
    }
}


impl<C, A, Mapping> Model for RefinementModel<C, A, Mapping> where
    C: Model,
    C::Action: Clone,
    C::State: Clone + Debug + Hash,
    A: Model,
    A::State: Clone + PartialEq + Debug + Hash,
    Mapping: RefinementMapping<C, A>,
    Mapping::AuxState: Clone + Hash + Debug,
 {
    type State = RefinementModelState<C, A, Mapping>;

    type Action = C::Action;

    /// This model returns what its spec functions describe wherever the
    /// concrete model, the abstract model and the mapping do.
    open spec fn obeys_model_spec() -> bool {
        C::obeys_model_spec() && A::obeys_model_spec() && Mapping::obeys_mapping_spec()
    }

    /// One state per initial concrete state, in the same order, each paired
    /// with its initial auxiliary state and its image under the mapping.
    open spec fn initial(&self, states: Seq<Self::State>) -> bool {
        exists|concrete: Seq<C::State>|
            #[trigger] self.concrete_model().initial(concrete) && states.len() == concrete.len()
                && forall|i: int|
                0 <= i < states.len() ==> self.lifts_initial(concrete[i], #[trigger] states[i])
    }

    /// The actions of the concrete model.
    open spec fn enabled(&self, state: Self::State) -> Seq<C::Action> {
        self.concrete_model().enabled(state.concrete())
    }

    /// The concrete model takes a clone of `action`; where it ignores the
    /// action, so does this model, and otherwise the auxiliary state advances
    /// and the new concrete state is mapped.
    open spec fn transition(
        &self,
        last: Self::State,
        action: C::Action,
        next: Option<Self::State>,
    ) -> bool {
        exists|concrete_action: C::Action|
            #[trigger] cloned(action, concrete_action) && match next {
                None => self.concrete_model().transition(last.concrete(), concrete_action, None),
                Some(n) => self.concrete_model().transition(
                    last.concrete(),
                    concrete_action,
                    Some(n.concrete()),
                ) && self.lifts_step(last, action, n),
            }
    }

    fn init_states(&self) -> (states: Vec<Self::State>)
        ensures
            exists|returned: Vec<C::State>|
                #[trigger] call_ensures(C::init_states, (&self.concrete_model(),), returned)
                    && returned@.len() == states@.len() && forall|i: int|
                    0 <= i < states@.len() ==> self.starts_as(returned@[i], #[trigger] states@[i]),
    {
        let mut concrete_states = self.concrete.init_states();
        let ghost returned = concrete_states;
        let ghost concrete = concrete_states@;
        let mut states: Vec<Self::State> = Vec::new();
        while concrete_states.len() > 0
            invariant
                states.len() <= concrete.len(),
                concrete_states@ == concrete.skip(states.len() as int),
                Self::obeys_model_spec() ==> forall|i: int|
                    0 <= i < states.len() ==> self.lifts_initial(concrete[i], #[trigger] states@[i]),
                forall|i: int| 0 <= i < states.len() ==> self.starts_as(concrete[i], #[trigger] states@[i]),
                call_ensures(C::init_states, (&self.concrete,), returned),
                returned@ == concrete,
            decreases concrete_states.len(),
        {
            let ghost k = states.len() as int;
            let concrete_state = concrete_states.remove(0);
            assert(concrete_state == concrete[k]);
            assert(concrete.skip(k).remove(0) == concrete.skip(k + 1));
            let aux_state = self.mapper.init_aux_state(&concrete_state);
            let mapped_abstract_state = self.mapper.refinement_map(&concrete_state, &aux_state);
            let debug_from_prev_all: Vec<A::State> = Vec::new();
            states.push(
                RefinementModelState {
                    concrete_state,
                    aux_state,
                    mapped_abstract_state,
                    prev_mapped_abstract_state: None,
                    debug_from_prev_all,
                },
            );
        }
        assert(Self::obeys_model_spec() ==> self.concrete_model().initial(concrete));
        assert(states@.len() == concrete.len());
        assert(call_ensures(C::init_states, (&self.concrete_model(),), returned));
        states
    }

    fn actions(&self, state: &Self::State, actions: &mut Vec<Self::Action>)
        ensures
            C::obeys_model_spec() ==> final(actions)@ == old(actions)@ + self.concrete_model().enabled(
                state.concrete(),
            ),
    {
        // action should be the same as the concrete model's action
        self.concrete.actions(&state.concrete_state, actions);
    }

    fn next_state(&self, last_state: &Self::State, action: Self::Action) -> (next: Option<
        Self::State,
    >)
        ensures
            next matches Some(n) ==> self.steps_as(*last_state, action, n),
            next is None ==> exists|concrete_action: C::Action|
                #[trigger] cloned(action, concrete_action) && call_ensures(
                    C::next_state,
                    (&self.concrete_model(), &last_state.concrete(), concrete_action),
                    None::<C::State>,
                ),
    {
        let concrete_action = action.clone();
        let ghost handed = concrete_action;
        assert(cloned(action, handed));
        let next_concrete = match self.concrete.next_state(
            &last_state.concrete_state,
            concrete_action,
        ) {
            Some(next_concrete) => next_concrete,
            None => {
                assert(Self::obeys_model_spec() ==> cloned(action, handed)
                    && self.concrete_model().transition(last_state.concrete(), handed, None));
                return None;
            },
        };
        let next_aux = self.mapper.advance_aux_state(
            &last_state.concrete_state,
            &last_state.aux_state,
            &action,
            &next_concrete,
        );
        let next_mapped_abstract = self.mapper.refinement_map(&next_concrete, &next_aux);
        let debug_from_prev_all = next_states(
            self.mapper.abstract_model(),
            &last_state.mapped_abstract_state,
        );
        Some(
            RefinementModelState {
                concrete_state: next_concrete,
                aux_state: next_aux,
                mapped_abstract_state: next_mapped_abstract,
                prev_mapped_abstract_state: Some(last_state.mapped_abstract_state.clone()),
                debug_from_prev_all,
            },
        )
    }

    /// The single property `check_simulation`, which must always hold.
    fn properties(&self) -> (properties: Vec<Property>)
        ensures
            properties@.len() == 1,
            properties@[0].expectation == Expectation::Always,
            properties@[0].name == "check_simulation",
    {
        vec![Property::always("check_simulation")]
    }

    /// Property `0` is [`check_simulation`](RefinementModel::check_simulation);
    /// there is no other.
    fn property_holds(&self, index: usize, state: &Self::State) -> (holds: bool)
        ensures
            index != 0 ==> holds,
            index == 0 ==> self.check_outcome(*state, holds),
    {
        if index == 0 {
            Self::check_simulation(self, state)
        } else {
            true
        }
    }

    /// Draws `path` in three layers: the abstract states (grouped by
    /// observation), the concrete states with their auxiliary states (one
    /// per step), and the concrete states (grouped by fingerprint), with
    /// the arrow into the last abstract node crossed out where the last step
    /// fails `check_simulation`. `None` for an empty path.
    fn as_svg(&self, path: Path<Self::State, Self::Action>) -> (svg: Option<String>)
        ensures
            svg is Some <==> path@.len() > 0,
            svg matches Some(svg) ==> exists|layout: SvgLayout|
                #[trigger] self.lays_out(path@, layout) && svg@ == layout.rendering()
                    && layout.width() == 260 + 150 * (path@.len() - 1) && occurrences(
                    svg@,
                    node_tag(),
                ) == layout.abstract_nodes@.len() + path@.len() + layout.concrete_nodes@.len(),
    {
        let steps = path.into_vec();
        if steps.len() == 0 {
            return None;
        }
        let (concrete_nodes, concrete_path_slots) = Self::concrete_layer(&steps);
        let middle_nodes = Self::middle_layer(&steps);
        let (abstract_nodes, abstract_path_slots) = self.abstract_layer(&steps);
        let last_state = &steps[steps.len() - 1].0;
        let last_is_valid = Self::check_simulation(self, last_state);
        let layout = SvgLayout {
            abstract_nodes,
            middle_nodes,
            concrete_nodes,
            abstract_path_slots,
            concrete_path_slots,
            last_is_valid,
        };
        let svg = render_svg(&layout);
        assert(self.lays_out(steps@, layout));
        assert(layout.span() == steps@.len() - 1);
        proof {
            lemma_rendering_node_count(layout);
        }
        Some(svg)
    }
}

impl<C, A, Mapping> RefinementModel<C, A, Mapping> where
    C: Model,
    C::Action: Clone,
    C::State: Clone + Debug + Hash,
    A: Model,
    A::State: Clone + PartialEq + Debug + Hash,
    Mapping: RefinementMapping<C, A>,
    Mapping::AuxState: Clone + Hash + Debug,
 {
    /// Whether `node` is node `k` of the concrete layer: titled with the
    /// description of the concrete state of the first step on it, and that
    /// step's fingerprint.
    pub open spec fn concrete_node(
        steps: Seq<(RefinementModelState<C, A, Mapping>, Option<C::Action>)>,
        fingerprints: Seq<u64>,
        slots: Seq<usize>,
        k: int,
        node: NodeMeta,
    ) -> bool {
        exists|j: int, text: Seq<char>|
            #![trigger described(steps[j].0.concrete(), text)]
            opens(slots, j, k) && described(steps[j].0.concrete(), text) && node.title@
                == title_text("Concrete"@, k as nat, fingerprints[j], text)
    }

    /// Whether `node` is node `i` of the middle layer: labelled `CA` and
    /// `i`, titled with `i`, a fingerprint of the concrete and auxiliary
    /// states of step `i`, and their descriptions.
    pub open spec fn middle_node(
        steps: Seq<(RefinementModelState<C, A, Mapping>, Option<C::Action>)>,
        i: int,
        node: NodeMeta,
    ) -> bool {
        &&& node.label@ == "CA"@ + decimal(i as nat)
        &&& exists|fp: u64, concrete_text: Seq<char>, aux_text: Seq<char>|
            #![trigger digest_of((&steps[i].0.concrete(), &steps[i].0.aux()), fp), described(steps[i].0.concrete(), concrete_text), described(steps[i].0.aux(), aux_text)]
            digest_of((&steps[i].0.concrete(), &steps[i].0.aux()), fp) && described(
                steps[i].0.concrete(),
                concrete_text,
            ) && described(steps[i].0.aux(), aux_text) && node.title@ == title_text(
                "Concrete+Aux"@,
                i as nat,
                fp,
                "Concrete: "@ + concrete_text + "\nAux: "@ + aux_text,
            )
    }

    /// Whether `nodes` and `slots` are the concrete layer of the drawing of
    /// `steps`, where `fingerprints` are fingerprints of the steps' concrete
    /// states: the layer that these fingerprints give, each node titled with
    /// the description of the concrete state of the step that opened it.
    pub open spec fn concrete_layer_of(
        steps: Seq<(RefinementModelState<C, A, Mapping>, Option<C::Action>)>,
        fingerprints: Seq<u64>,
        nodes: Seq<NodeMeta>,
        slots: Seq<usize>,
    ) -> bool {
        &&& fingerprints.len() == steps.len()
        &&& nodes.len() <= steps.len()
        &&& fingerprint_layer("Concrete"@, "C"@, fingerprints, nodes, slots)
        &&& forall|j: int|
            0 <= j < steps.len() ==> digest_of(steps[j].0.concrete(), #[trigger] fingerprints[j])
        &&& forall|i: int, j: int|
            0 <= i < steps.len() && 0 <= j < steps.len() ==> (#[trigger] slots[i] == #[trigger] slots[j]
                <==> fingerprints[i] == fingerprints[j])
        &&& forall|k: int|
            0 <= k < nodes.len() ==> Self::concrete_node(steps, fingerprints, slots, k, #[trigger] nodes[k])
    }

    /// The concrete layer of the drawing of `steps`: one node per distinct
    /// fingerprint of a concrete state, in the order of first appearance,
    /// and the node that each step stands on.
    fn concrete_layer(steps: &Vec<(RefinementModelState<C, A, Mapping>, Option<C::Action>)>) -> (layer:
        (Vec<NodeMeta>, Vec<usize>))
        ensures
            layer.1@.len() == steps@.len(),
            forall|i: int| 0 <= i < steps@.len() ==> #[trigger] layer.1@[i] < layer.0@.len(),
            exists|fingerprints: Seq<u64>|
                #[trigger] Self::concrete_layer_of(steps@, fingerprints, layer.0@, layer.1@),
    {
        let mut slot_of: HashMap<u64, usize> = HashMap::new();
        let ghost mut reps: Seq<u64> = Seq::empty();
        let mut nodes: Vec<NodeMeta> = Vec::new();
        let mut slots: Vec<usize> = Vec::new();
        let ghost mut fingerprints: Seq<u64> = Seq::empty();
        for i in 0..steps.len()
            invariant
                fingerprints.len() == i,
                slots@.len() == i,
                nodes@.len() <= i,
                forall|j: int| 0 <= j < i ==> #[trigger] slots@[j] < nodes@.len(),
                reps == layer_reps(fingerprints, same_fingerprint()),
                forall|f: u64| #[trigger] slot_of@.contains_key(f) <==> reps.contains(f),
                forall|k: int| 0 <= k < reps.len() ==> slot_of@[#[trigger] reps[k]] == k,
                forall|a: int, b: int| 0 <= a < b < reps.len() ==> #[trigger] reps[a] != #[trigger] reps[b],
                forall|j: int| 0 <= j < i ==> reps[#[trigger] slots@[j] as int] == fingerprints[j],
                fingerprint_layer("Concrete"@, "C"@, fingerprints, nodes@, slots@),
                forall|j: int| 0 <= j < i ==> digest_of(steps@[j].0.concrete(), #[trigger] fingerprints[j]),
                forall|k: int|
                    0 <= k < nodes@.len() ==> Self::concrete_node(
                        steps@,
                        fingerprints,
                        slots@,
                        k,
                        #[trigger] nodes@[k],
                    ),
        {
            let state = &steps[i].0;
            let fp = fingerprint(&state.concrete_state);
            let slot = match slot_of.get(&fp) {
                Some(found) => *found,
                None => nodes.len(),
            };
            proof {
                assert(nodes@.len() == reps.len());
                if reps.contains(fp) {
                    let k = choose|k: int| 0 <= k < reps.len() && reps[k] == fp;
                    assert(slot_of@[reps[k]] == k);
                    assert(slot == k);
                    lemma_first_match_at(reps, fp, same_fingerprint(), 0, k as nat);
                } else {
                    assert forall|m: int| 0 <= m < reps.len() implies !(same_fingerprint())(reps[m], fp) by {
                        if reps[m] == fp {
                            assert(reps.contains(fp));
                        }
                    }
                    lemma_first_match_at(reps, fp, same_fingerprint(), 0, reps.len());
                }
                lemma_first_match_bound(reps, fp, same_fingerprint(), 0);
            }
            let ghost old_nodes = nodes@;
            let ghost old_slots = slots@;
            let ghost old_fingerprints = fingerprints;
            let ghost old_reps = reps;
            let ghost mut opened_text: Seq<char> = Seq::empty();
            if slot == nodes.len() {
                let value = describe(&state.concrete_state);
                let title = build_title("Concrete", slot, fp, value.as_str());
                let label = numbered("C", slot);
                proof {
                    lemma_title_prefix("Concrete"@, slot as nat, fp, Seq::empty(), value@);
                    assert(Seq::<char>::empty() + value@ == value@);
                    opened_text = value@;
                }
                slot_of.insert(fp, slot);
                proof {
                    reps = reps.push(fp);
                }
                nodes.push(NodeMeta { label, title });
            }
            slots.push(slot);
            proof {
                lemma_layer_push(fingerprints, fp, same_fingerprint());
                fingerprints = fingerprints.push(fp);
                assert forall|f: u64| #[trigger] slot_of@.contains_key(f) <==> reps.contains(f) by {
                    if f == fp && slot == old_reps.len() {
                        assert(reps[old_reps.len() as int] == fp);
                    }
                    if reps.contains(f) && f != fp {
                        let k = choose|k: int| 0 <= k < reps.len() && reps[k] == f;
                        assert(old_reps[k] == f);
                    }
                    if old_reps.contains(f) {
                        let k = choose|k: int| 0 <= k < old_reps.len() && old_reps[k] == f;
                        assert(reps[k] == f);
                    }
                }
                assert forall|k: int| 0 <= k < reps.len() implies slot_of@[#[trigger] reps[k]] == k by {
                    if k < old_reps.len() {
                        assert(reps[k] == old_reps[k]);
                        assert(slot_of@[old_reps[k]] == k);
                        if slot == old_reps.len() {
                            assert(old_reps[k] != fp) by {
                                if old_reps[k] == fp {
                                    assert(old_reps.contains(fp));
                                }
                            }
                        }
                    }
                }
                assert forall|a: int, b: int| 0 <= a < b < reps.len() implies #[trigger] reps[a] != #[trigger] reps[b] by {
                    if b >= old_reps.len() {
                        assert(reps[a] == old_reps[a]);
                        if old_reps[a] == fp {
                            assert(old_reps.contains(fp));
                        }
                    } else {
                        assert(reps[a] == old_reps[a] && reps[b] == old_reps[b]);
                    }
                }
                assert forall|j: int| 0 <= j < i + 1 implies reps[#[trigger] slots@[j] as int] == fingerprints[j] by {
                    if j < i {
                        assert(slots@[j] == old_slots[j]);
                        assert(fingerprints[j] == old_fingerprints[j]);
                        assert(old_reps[old_slots[j] as int] == old_fingerprints[j]);
                        assert(reps[old_slots[j] as int] == old_reps[old_slots[j] as int]);
                    } else {
                        if slot < old_reps.len() {
                            assert(reps[slot as int] == old_reps[slot as int]);
                        }
                    }
                }
                let reps_now = layer_reps(fingerprints, same_fingerprint());
                assert forall|k: int| 0 <= k < nodes@.len() implies (#[trigger] nodes@[k]).label@
                    == "C"@ + decimal(k as nat) && title_text(
                    "Concrete"@,
                    k as nat,
                    reps_now[k],
                    Seq::empty(),
                ).is_prefix_of(nodes@[k].title@) by {
                    if k < old_nodes.len() {
                        assert(nodes@[k] == old_nodes[k]);
                    }
                }
                assert forall|j: int| 0 <= j < slots@.len() implies #[trigger] slots@[j] as nat
                    == layer_slots(fingerprints, same_fingerprint())[j] && slots@[j] < nodes@.len() by {
                    if j < old_slots.len() {
                        assert(slots@[j] == old_slots[j]);
                    }
                }
                assert forall|j: int| 0 <= j < i + 1 implies digest_of(
                    steps@[j].0.concrete(),
                    #[trigger] fingerprints[j],
                ) by {
                    if j < i {
                        assert(fingerprints[j] == old_fingerprints[j]);
                    }
                }
                assert forall|k: int| 0 <= k < nodes@.len() implies Self::concrete_node(
                    steps@,
                    fingerprints,
                    slots@,
                    k,
                    #[trigger] nodes@[k],
                ) by {
                    if k < old_nodes.len() {
                        assert(nodes@[k] == old_nodes[k]);
                        assert(Self::concrete_node(steps@, old_fingerprints, old_slots, k, old_nodes[k]));
                        let (j, text) = choose|j: int, text: Seq<char>|
                            #![trigger described(steps@[j].0.concrete(), text)]
                            opens(old_slots, j, k) && described(steps@[j].0.concrete(), text)
                                && old_nodes[k].title@ == title_text(
                                "Concrete"@,
                                k as nat,
                                old_fingerprints[j],
                                text,
                            );
                        assert(fingerprints[j] == old_fingerprints[j]);
                        assert(opens(slots@, j, k)) by {
                            assert forall|m: int| 0 <= m < j implies slots@[m] != k by {
                                assert(slots@[m] == old_slots[m]);
                            }
                        }
                        assert(described(steps@[j].0.concrete(), text));
                    } else {
                        assert(slots@[i as int] == k);
                        assert(opens(slots@, i as int, k)) by {
                            assert forall|m: int| 0 <= m < i implies slots@[m] != k by {
                                assert(slots@[m] == old_slots[m]);
                            }
                        }
                        assert(fingerprints[i as int] == fp);
                        assert(described(steps@[i as int].0.concrete(), opened_text));
                    }
                }
            }
        }
        let layer = (nodes, slots);
        assert forall|a: int, b: int|
            0 <= a < steps@.len() && 0 <= b < steps@.len() implies (#[trigger] layer.1@[a] == #[trigger] layer.1@[b]
                <==> fingerprints[a] == fingerprints[b]) by {
            assert(reps[layer.1@[a] as int] == fingerprints[a]);
            assert(reps[layer.1@[b] as int] == fingerprints[b]);
            if fingerprints[a] == fingerprints[b] && layer.1@[a] != layer.1@[b] {
                if layer.1@[a] < layer.1@[b] {
                    assert(reps[layer.1@[a] as int] != reps[layer.1@[b] as int]);
                } else {
                    assert(reps[layer.1@[b] as int] != reps[layer.1@[a] as int]);
                }
            }
        }
        assert(Self::concrete_layer_of(steps@, fingerprints, layer.0@, layer.1@));
        layer
    }

    /// Whether `nodes` is the middle layer of the drawing of `steps`: one
    /// node per step, labelled `CA` and the step's number, titled with the
    /// step's number, a fingerprint of its concrete and auxiliary states,
    /// and their descriptions.
    pub open spec fn middle_layer_of(
        steps: Seq<(RefinementModelState<C, A, Mapping>, Option<C::Action>)>,
        nodes: Seq<NodeMeta>,
    ) -> bool {
        &&& nodes.len() == steps.len()
        &&& forall|i: int| 0 <= i < nodes.len() ==> Self::middle_node(steps, i, #[trigger] nodes[i])
    }

    /// The middle layer of the drawing of `steps`: one node per step,
    /// titled with the fingerprint of its concrete and auxiliary states.
    fn middle_layer(steps: &Vec<(RefinementModelState<C, A, Mapping>, Option<C::Action>)>) -> (nodes:
        Vec<NodeMeta>)
        ensures
            Self::middle_layer_of(steps@, nodes@),
    {
        let mut nodes: Vec<NodeMeta> = Vec::new();
        for i in 0..steps.len()
            invariant
                nodes@.len() == i,
                forall|j: int| 0 <= j < i ==> Self::middle_node(steps@, j, #[trigger] nodes@[j]),
        {
            let state = &steps[i].0;
            let fp = fingerprint(&(&state.concrete_state, &state.aux_state));
            let mut value = String::from_str("Concrete: ");
            let concrete_text = describe(&state.concrete_state);
            value.append(concrete_text.as_str());
            value.append("\nAux: ");
            let aux_text = describe(&state.aux_state);
            value.append(aux_text.as_str());
            let title = build_title("Concrete+Aux", i, fp, value.as_str());
            let label = numbered("CA", i);
            let ghost old_nodes = nodes@;
            nodes.push(NodeMeta { label, title });
            proof {
                assert(digest_of((&steps@[i as int].0.concrete(), &steps@[i as int].0.aux()), fp));
                assert(value@ == "Concrete: "@ + concrete_text@ + "\nAux: "@ + aux_text@);
                assert(described(steps@[i as int].0.concrete(), concrete_text@));
                assert(described(steps@[i as int].0.aux(), aux_text@));
                assert(Self::middle_node(steps@, i as int, nodes@[i as int]));
                assert forall|j: int| 0 <= j < i + 1 implies Self::middle_node(
                    steps@,
                    j,
                    #[trigger] nodes@[j],
                ) by {
                    if j < i {
                        assert(nodes@[j] == old_nodes[j]);
                    }
                }
            }
        }
        nodes
    }

    /// Whether `node` is node `k` of the abstract layer: labelled `A` and
    /// `k`, titled with `k`, the fingerprint of the mapped abstract state of
    /// the first step on it, and the descriptions of its observation and of
    /// that state.
    pub open spec fn abstract_node(
        steps: Seq<(RefinementModelState<C, A, Mapping>, Option<C::Action>)>,
        observations: Seq<Mapping::Observable>,
        fingerprints: Seq<u64>,
        slots: Seq<usize>,
        k: int,
        node: NodeMeta,
    ) -> bool {
        &&& node.label@ == "A"@ + decimal(k as nat)
        &&& exists|j: int, observable_text: Seq<char>, mapped_text: Seq<char>|
            #![trigger described(observations[j], observable_text), described(steps[j].0.mapped(), mapped_text)]
            opens(slots, j, k) && digest_of(steps[j].0.mapped(), fingerprints[k]) && described(
                observations[j],
                observable_text,
            ) && described(steps[j].0.mapped(), mapped_text) && node.title@ == title_text(
                "Abstract"@,
                k as nat,
                fingerprints[k],
                "Observable: "@ + observable_text + "\n\nMapped abstract state: "@ + mapped_text,
            )
    }

    /// Whether `nodes` and `slots` are the abstract layer of the drawing of
    /// `steps`, where `observations` are what the mapping observed of the
    /// mapped abstract states and `fingerprints` those of the abstract
    /// states that opened the nodes: at most one node per step, each step on
    /// a node, and, where observations compare by `eq_spec`, one node per
    /// distinct observation in the order of first appearance.
    pub open spec fn abstract_layer_of(
        self,
        steps: Seq<(RefinementModelState<C, A, Mapping>, Option<C::Action>)>,
        observations: Seq<Mapping::Observable>,
        fingerprints: Seq<u64>,
        nodes: Seq<NodeMeta>,
        slots: Seq<usize>,
    ) -> bool {
        &&& observations.len() == steps.len()
        &&& slots.len() == steps.len()
        &&& nodes.len() <= steps.len()
        &&& fingerprints.len() == nodes.len()
        &&& forall|j: int| 0 <= j < steps.len() ==> #[trigger] slots[j] < nodes.len()
        &&& forall|j: int|
            0 <= j < steps.len() ==> call_ensures(
                Mapping::observe,
                (&self.mapper(), &steps[j].0.mapped()),
                #[trigger] observations[j],
            )
        &&& Mapping::obeys_mapping_spec() ==> forall|i: int|
            0 <= i < steps.len() ==> #[trigger] observations[i] == self.observation(steps[i].0)
        &&& forall|k: int|
            0 <= k < nodes.len() ==> Self::abstract_node(
                steps,
                observations,
                fingerprints,
                slots,
                k,
                #[trigger] nodes[k],
            )
        &&& Mapping::Observable::obeys_eq_spec() ==> observation_layer(
            observations,
            fingerprints,
            nodes,
            slots,
        )
    }

    /// Whether `layout` is the drawing of `steps`: the concrete states
    /// grouped by fingerprint, one middle node per step, the mapped
    /// abstract states grouped by observation, and the last step's verdict.
    pub open spec fn lays_out(
        self,
        steps: Seq<(RefinementModelState<C, A, Mapping>, Option<C::Action>)>,
        layout: SvgLayout,
    ) -> bool {
        &&& layout.wf()
        &&& layout.concrete_path_slots@.len() == steps.len()
        &&& layout.abstract_path_slots@.len() == steps.len()
        &&& exists|fingerprints: Seq<u64>|
            #[trigger] Self::concrete_layer_of(
                steps,
                fingerprints,
                layout.concrete_nodes@,
                layout.concrete_path_slots@,
            )
        &&& Self::middle_layer_of(steps, layout.middle_nodes@)
        &&& exists|observations: Seq<Mapping::Observable>, fingerprints: Seq<u64>|
            #[trigger] self.abstract_layer_of(
                steps,
                observations,
                fingerprints,
                layout.abstract_nodes@,
                layout.abstract_path_slots@,
            )
        &&& steps.len() > 0 ==> self.check_outcome(steps.last().0, layout.last_is_valid)
    }

    /// Looks up `observation` among `reps` by `==`.
    fn find_observation(reps: &Vec<Mapping::Observable>, observation: &Mapping::Observable) -> (slot:
        usize)
        ensures
            slot <= reps@.len(),
            Mapping::Observable::obeys_eq_spec() ==> slot == first_match(
                reps@,
                *observation,
                same_observation(),
                0,
            ),
    {
        let mut j: usize = 0;
        while j < reps.len()
            invariant
                j <= reps@.len(),
                Mapping::Observable::obeys_eq_spec() ==> first_match(
                    reps@,
                    *observation,
                    same_observation(),
                    0,
                ) == first_match(reps@, *observation, same_observation(), j as nat),
            decreases reps.len() - j,
        {
            if reps[j] == *observation {
                return j;
            }
            j = j + 1;
        }
        j
    }

    /// The abstract layer of the drawing of `steps`: one node per distinct
    /// observation of a mapped abstract state, in the order of first
    /// appearance, and the node that each step stands on.
    fn abstract_layer(
        &self,
        steps: &Vec<(RefinementModelState<C, A, Mapping>, Option<C::Action>)>,
    ) -> (layer: (Vec<NodeMeta>, Vec<usize>))
        ensures
            layer.1@.len() == steps@.len(),
            forall|i: int| 0 <= i < steps@.len() ==> #[trigger] layer.1@[i] < layer.0@.len(),
            exists|observations: Seq<Mapping::Observable>, fingerprints: Seq<u64>|
                #[trigger] self.abstract_layer_of(
                    steps@,
                    observations,
                    fingerprints,
                    layer.0@,
                    layer.1@,
                ),
    {
        let mut reps: Vec<Mapping::Observable> = Vec::new();
        let mut nodes: Vec<NodeMeta> = Vec::new();
        let mut slots: Vec<usize> = Vec::new();
        let ghost mut observations: Seq<Mapping::Observable> = Seq::empty();
        let ghost mut fingerprints: Seq<u64> = Seq::empty();
        for i in 0..steps.len()
            invariant
                observations.len() == i,
                slots@.len() == i,
                reps@.len() == nodes@.len(),
                nodes@.len() <= i,
                fingerprints.len() == nodes@.len(),
                forall|j: int| 0 <= j < i ==> #[trigger] slots@[j] < nodes@.len(),
                forall|j: int|
                    0 <= j < i ==> call_ensures(
                        Mapping::observe,
                        (&self.mapper(), &steps@[j].0.mapped()),
                        #[trigger] observations[j],
                    ),
                Mapping::obeys_mapping_spec() ==> forall|j: int|
                    0 <= j < i ==> #[trigger] observations[j] == self.observation(steps@[j].0),
                forall|k: int|
                    0 <= k < nodes@.len() ==> Self::abstract_node(
                        steps@,
                        observations,
                        fingerprints,
                        slots@,
                        k,
                        #[trigger] nodes@[k],
                    ),
                Mapping::Observable::obeys_eq_spec() ==> reps@ == layer_reps(
                    observations,
                    same_observation(),
                ),
                Mapping::Observable::obeys_eq_spec() ==> observation_layer(
                    observations,
                    fingerprints,
                    nodes@,
                    slots@,
                ),
        {
            let state = &steps[i].0;
            let obs = self.mapper.observe(&state.mapped_abstract_state);
            let slot = Self::find_observation(&reps, &obs);
            let ghost old_nodes = nodes@;
            let ghost old_slots = slots@;
            let ghost old_fingerprints = fingerprints;
            let ghost old_observations = observations;
            let ghost old_reps = reps@;
            let ghost observed = obs;
            let ghost mut observable_seen: Seq<char> = Seq::empty();
            let ghost mut mapped_seen: Seq<char> = Seq::empty();
            if slot == reps.len() {
                let fp = fingerprint(&state.mapped_abstract_state);
                let mut value = String::from_str("Observable: ");
                let ghost head = value@;
                let observable_text = describe(&obs);
                value.append(observable_text.as_str());
                value.append("\n\nMapped abstract state: ");
                let mapped_text = describe(&state.mapped_abstract_state);
                value.append(mapped_text.as_str());
                let title = build_title("Abstract", slot, fp, value.as_str());
                let label = numbered("A", slot);
                proof {
                    lemma_title_prefix("Abstract"@, slot as nat, fp, head, value@.skip(head.len() as int));
                    assert(head + value@.skip(head.len() as int) == value@);
                    assert(value@ == "Observable: "@ + observable_text@ + "\n\nMapped abstract state: "@
                        + mapped_text@);
                    fingerprints = fingerprints.push(fp);
                    observable_seen = observable_text@;
                    mapped_seen = mapped_text@;
                }
                reps.push(obs);
                nodes.push(NodeMeta { label, title });
            }
            slots.push(slot);
            proof {
                lemma_first_match_bound(old_reps, observed, same_observation(), 0);
                lemma_layer_push(observations, observed, same_observation());
                observations = observations.push(observed);
                assert forall|j: int| 0 <= j < slots@.len() implies #[trigger] slots@[j] < nodes@.len() by {
                    if j < old_slots.len() {
                        assert(slots@[j] == old_slots[j]);
                    }
                }
                assert forall|j: int| 0 <= j < i + 1 implies call_ensures(
                    Mapping::observe,
                    (&self.mapper(), &steps@[j].0.mapped()),
                    #[trigger] observations[j],
                ) by {
                    if j < i {
                        assert(observations[j] == old_observations[j]);
                    }
                }
                assert forall|k: int| 0 <= k < nodes@.len() implies Self::abstract_node(
                    steps@,
                    observations,
                    fingerprints,
                    slots@,
                    k,
                    #[trigger] nodes@[k],
                ) by {
                    if k < old_nodes.len() {
                        assert(nodes@[k] == old_nodes[k]);
                        assert(fingerprints[k] == old_fingerprints[k]);
                        assert(Self::abstract_node(
                            steps@,
                            old_observations,
                            old_fingerprints,
                            old_slots,
                            k,
                            old_nodes[k],
                        ));
                        let (j, ot, mt) = choose|j: int, ot: Seq<char>, mt: Seq<char>|
                            #![trigger described(old_observations[j], ot), described(steps@[j].0.mapped(), mt)]
                            opens(old_slots, j, k) && digest_of(steps@[j].0.mapped(), old_fingerprints[k])
                                && described(old_observations[j], ot) && described(steps@[j].0.mapped(), mt)
                                && old_nodes[k].title@ == title_text(
                                "Abstract"@,
                                k as nat,
                                old_fingerprints[k],
                                "Observable: "@ + ot + "\n\nMapped abstract state: "@ + mt,
                            );
                        assert(observations[j] == old_observations[j]);
                        assert(opens(slots@, j, k)) by {
                            assert forall|m: int| 0 <= m < j implies slots@[m] != k by {
                                assert(slots@[m] == old_slots[m]);
                            }
                        }
                        assert(described(observations[j], ot));
                        assert(described(steps@[j].0.mapped(), mt));
                    } else {
                        assert(slots@[i as int] == k);
                        assert(opens(slots@, i as int, k)) by {
                            assert forall|m: int| 0 <= m < i implies slots@[m] != k by {
                                assert(slots@[m] == old_slots[m]);
                            }
                        }
                        assert(observations[i as int] == observed);
                        assert(described(observations[i as int], observable_seen));
                        assert(described(steps@[i as int].0.mapped(), mapped_seen));
                    }
                }
                if Mapping::Observable::obeys_eq_spec() {
                    let reps_now = layer_reps(observations, same_observation());
                    assert forall|k: int| 0 <= k < nodes@.len() implies (#[trigger] nodes@[k]).label@
                        == "A"@ + decimal(k as nat) && title_text(
                        "Abstract"@,
                        k as nat,
                        fingerprints[k],
                        "Observable: "@,
                    ).is_prefix_of(nodes@[k].title@) by {
                        if k < old_nodes.len() {
                            assert(nodes@[k] == old_nodes[k]);
                            assert(fingerprints[k] == old_fingerprints[k]);
                        }
                    }
                    assert forall|j: int| 0 <= j < slots@.len() implies #[trigger] slots@[j] as nat
                        == layer_slots(observations, same_observation())[j] by {
                        if j < old_slots.len() {
                            assert(slots@[j] == old_slots[j]);
                        }
                    }
                }
            }
        }
        let layer = (nodes, slots);
        assert(observations.len() == steps@.len());
        assert(self.abstract_layer_of(steps@, observations, fingerprints, layer.0@, layer.1@));
        layer
    }
}

/// One step of weak L-simulation under observation `observe`: the step
/// from `prev` (none for an initial state) to `cur` stutters on the
/// observation, or one of `candidates` has the observation of `cur`.
pub open spec fn weakly_simulated<S, O: PartialEq>(
    observe: spec_fn(S) -> O,
    prev: Option<S>,
    cur: S,
    candidates: Seq<S>,
) -> bool {
    ||| prev matches Some(p) && observe(p).eq_spec(&observe(cur))
    ||| exists|i: int| 0 <= i < candidates.len() && observe(#[trigger] candidates[i]).eq_spec(&observe(cur))
}

/// The verdict of a refinement model on a state is weak L-simulation under
/// the mapping's observation, from the previous to the current mapped
/// abstract state.
pub proof fn lemma_verdict_is_weak_simulation<C, A, Mapping>(
    model: RefinementModel<C, A, Mapping>,
    state: RefinementModelState<C, A, Mapping>,
    candidates: Seq<A::State>,
) where C: Model, A: Model, Mapping: RefinementMapping<C, A>
    ensures
        model.simulation_verdict(state, candidates) == weakly_simulated(
            |a: A::State| model.mapper().spec_observe(a),
            state.prev_mapped(),
            state.mapped(),
            candidates,
        ),
{
    let observe = |a: A::State| model.mapper().spec_observe(a);
    if model.observed_among(candidates, model.observation(state)) {
        let i = choose|i: int|
            0 <= i < candidates.len() && model.mapper().spec_observe(#[trigger] candidates[i]).eq_spec(
                &model.observation(state),
            );
        assert(observe(candidates[i]).eq_spec(&observe(state.mapped())));
    }
    if weakly_simulated(observe, state.prev_mapped(), state.mapped(), candidates) && !model.stutters(state) {
        let i = choose|i: int|
            0 <= i < candidates.len() && observe(#[trigger] candidates[i]).eq_spec(&observe(state.mapped()));
        assert(model.mapper().spec_observe(candidates[i]).eq_spec(&model.observation(state)));
    }
}

/// Strict L-simulation is the special case where observations are equal
/// exactly when the abstract states are: a step is then simulated when the
/// mapped abstract state did not change, or is one of the candidates.
pub proof fn lemma_strict_simulation<S, O: PartialEq>(
    observe: spec_fn(S) -> O,
    prev: Option<S>,
    cur: S,
    candidates: Seq<S>,
)
    requires
        forall|x: S, y: S| #[trigger] observe(x).eq_spec(&observe(y)) <==> x == y,
    ensures
        weakly_simulated(observe, prev, cur, candidates) <==> (prev == Some(cur)
            || candidates.contains(cur)),
{
    if candidates.contains(cur) {
        let i = choose|i: int| 0 <= i < candidates.len() && candidates[i] == cur;
        assert(observe(candidates[i]).eq_spec(&observe(cur)));
    }
    if prev == Some(cur) {
        assert(observe(cur).eq_spec(&observe(cur)));
    }
}

/// A coarser observation accepts every step that a finer one accepts:
/// projecting bookkeeping out of the observable only removes obligations.
pub proof fn lemma_coarser_observation_accepts_more<S, O1: PartialEq, O2: PartialEq>(
    finer: spec_fn(S) -> O1,
    coarser: spec_fn(S) -> O2,
    prev: Option<S>,
    cur: S,
    candidates: Seq<S>,
)
    requires
        forall|x: S, y: S|
            #[trigger] finer(x).eq_spec(&finer(y)) ==> coarser(x).eq_spec(&coarser(y)),
        weakly_simulated(finer, prev, cur, candidates),
    ensures
        weakly_simulated(coarser, prev, cur, candidates),
{
    if !(prev matches Some(p) && finer(p).eq_spec(&finer(cur))) {
        let i = choose|i: int| 0 <= i < candidates.len() && finer(#[trigger] candidates[i]).eq_spec(&finer(cur));
        assert(coarser(candidates[i]).eq_spec(&coarser(cur)));
    }
}

/// The verdict on a step sees the current abstract state only through its
/// observation: two states with the same observation get the same verdict.
pub proof fn lemma_verdict_sees_only_observations<S, O: PartialEq>(
    observe: spec_fn(S) -> O,
    prev: Option<S>,
    cur1: S,
    cur2: S,
    candidates: Seq<S>,
)
    requires
        observe(cur1) == observe(cur2),
    ensures
        weakly_simulated(observe, prev, cur1, candidates) == weakly_simulated(
            observe,
            prev,
            cur2,
            candidates,
        ),
{
}

/// Every initial state of a refinement model starts without a previous
/// mapped abstract state, with the initial auxiliary state of its concrete
/// state, and with the image of both under the mapping.
pub proof fn lemma_initial_states_are_mapped<C, A, Mapping>(
    model: RefinementModel<C, A, Mapping>,
    states: Seq<RefinementModelState<C, A, Mapping>>,
) where
    C: Model,
    C::Action: Clone,
    C::State: Clone + Debug + Hash,
    A: Model,
    A::State: Clone + PartialEq + Debug + Hash,
    Mapping: RefinementMapping<C, A>,
    Mapping::AuxState: Clone + Hash + Debug,

    requires
        model.initial(states),
    ensures
        forall|i: int|
            0 <= i < states.len() ==> {
                &&& (#[trigger] states[i]).prev_mapped() is None
                &&& states[i].aux() == model.mapper().spec_init_aux_state(states[i].concrete())
                &&& states[i].mapped() == model.mapper().spec_refinement_map(
                    states[i].concrete(),
                    states[i].aux(),
                )
            },
{
    let concrete = choose|concrete: Seq<C::State>|
        #[trigger] model.concrete_model().initial(concrete) && states.len() == concrete.len()
            && forall|i: int|
            0 <= i < states.len() ==> model.lifts_initial(concrete[i], #[trigger] states[i]);
    assert forall|i: int| 0 <= i < states.len() implies (#[trigger] states[i]).prev_mapped() is None
        && states[i].aux() == model.mapper().spec_init_aux_state(states[i].concrete())
        && states[i].mapped() == model.mapper().spec_refinement_map(
        states[i].concrete(),
        states[i].aux(),
    ) by {
        assert(model.lifts_initial(concrete[i], states[i]));
    }
}

/// A step of a refinement model keeps the mapped abstract state the image
/// of the new concrete and auxiliary states, and remembers the mapped
/// abstract state it came from (as a clone).
pub proof fn lemma_step_is_mapped<C, A, Mapping>(
    model: RefinementModel<C, A, Mapping>,
    last: RefinementModelState<C, A, Mapping>,
    action: C::Action,
    next: RefinementModelState<C, A, Mapping>,
) where
    C: Model,
    C::Action: Clone,
    C::State: Clone + Debug + Hash,
    A: Model,
    A::State: Clone + PartialEq + Debug + Hash,
    Mapping: RefinementMapping<C, A>,
    Mapping::AuxState: Clone + Hash + Debug,

    requires
        model.transition(last, action, Some(next)),
    ensures
        next.aux() == model.mapper().spec_advance_aux_state(
            last.concrete(),
            last.aux(),
            action,
            next.concrete(),
        ),
        next.mapped() == model.mapper().spec_refinement_map(next.concrete(), next.aux()),
        next.prev_mapped() matches Some(prev) && cloned(last.mapped(), prev),
        successor_states(model.abstract_spec(), last.mapped(), next.candidates()),
{
}

/// Along a step of a refinement model whose mapped abstract states clone
/// faithfully, a passing check means that the abstract model simulates the
/// step: its observation stutters, or an abstract transition from the
/// previous mapped abstract state reaches a state with its observation.
pub proof fn lemma_passing_step_is_simulated<C, A, Mapping>(
    model: RefinementModel<C, A, Mapping>,
    last: RefinementModelState<C, A, Mapping>,
    action: C::Action,
    next: RefinementModelState<C, A, Mapping>,
    candidates: Seq<A::State>,
) where
    C: Model,
    C::Action: Clone,
    C::State: Clone + Debug + Hash,
    A: Model,
    A::State: Clone + PartialEq + Debug + Hash,
    Mapping: RefinementMapping<C, A>,
    Mapping::AuxState: Clone + Hash + Debug,

    requires
        forall|a: A::State, b: A::State| #[trigger] cloned(a, b) ==> a == b,
        model.transition(last, action, Some(next)),
        model.abstract_candidates(next, candidates),
        model.simulation_verdict(next, candidates),
    ensures
        successor_states(model.abstract_spec(), last.mapped(), candidates),
        model.mapper().spec_observe(last.mapped()).eq_spec(&model.observation(next))
            || model.observed_among(candidates, model.observation(next)),
{
    let prev = next.prev_mapped()->0;
    assert(cloned(last.mapped(), prev));
}

/// The auxiliary state that the mapping's spec gives after the concrete
/// states `concretes`, each reached from the one before by the action of
/// `actions` at the same position: the initial auxiliary state of the first,
/// advanced along every step.
pub open spec fn aux_along<C: Model, A: Model, Mapping: RefinementMapping<C, A>>(
    mapper: Mapping,
    concretes: Seq<C::State>,
    actions: Seq<C::Action>,
) -> Mapping::AuxState
    decreases concretes.len(),
{
    if concretes.len() <= 1 {
        mapper.spec_init_aux_state(concretes[0])
    } else {
        let n = concretes.len() - 1;
        mapper.spec_advance_aux_state(
            concretes[n - 1],
            aux_along::<C, A, Mapping>(mapper, concretes.drop_last(), actions.drop_last()),
            actions[n - 1],
            concretes[n],
        )
    }
}

/// Along a run of a refinement model, the auxiliary state evolves alongside
/// the concrete execution: after any number of steps it is the initial
/// auxiliary state of the first concrete state advanced along every step,
/// and the mapped abstract state is the image of the current concrete and
/// auxiliary states.
pub proof fn lemma_aux_evolves_along_runs<C, A, Mapping>(
    model: RefinementModel<C, A, Mapping>,
    states: Seq<RefinementModelState<C, A, Mapping>>,
    actions: Seq<C::Action>,
) where
    C: Model,
    C::Action: Clone,
    C::State: Clone + Debug + Hash,
    A: Model,
    A::State: Clone + PartialEq + Debug + Hash,
    Mapping: RefinementMapping<C, A>,
    Mapping::AuxState: Clone + Hash + Debug,
    requires
        states.len() > 0,
        actions.len() == states.len() - 1,
        model.lifts_initial(states[0].concrete(), states[0]),
        forall|k: int|
            0 <= k < actions.len() ==> #[trigger] model.lifts_step(states[k], actions[k], states[k + 1]),
    ensures
        states.last().aux() == aux_along::<C, A, Mapping>(
            model.mapper(),
            states.map_values(|s: RefinementModelState<C, A, Mapping>| s.concrete()),
            actions,
        ),
        states.last().mapped() == model.mapper().spec_refinement_map(
            states.last().concrete(),
            states.last().aux(),
        ),
    decreases states.len(),
{
    let concretes = states.map_values(|s: RefinementModelState<C, A, Mapping>| s.concrete());
    if states.len() > 1 {
        let n = states.len() - 1;
        let shorter = states.drop_last();
        let fewer = actions.drop_last();
        assert forall|k: int| 0 <= k < fewer.len() implies #[trigger] model.lifts_step(
            shorter[k],
            fewer[k],
            shorter[k + 1],
        ) by {
            assert(model.lifts_step(states[k], actions[k], states[k + 1]));
        }
        lemma_aux_evolves_along_runs(model, shorter, fewer);
        assert(shorter.map_values(|s: RefinementModelState<C, A, Mapping>| s.concrete())
            =~= concretes.drop_last());
        let j = n - 1;
        assert(model.lifts_step(states[j], actions[j], states[j + 1]));
        assert(states[j + 1] == states.last());
        assert(concretes[j] == states[j].concrete());
        assert(concretes[n] == states.last().concrete());
        assert(shorter.last() == states[j]);
    }
}

/// The check sees a state's mapped abstract state only through its
/// observation: two states with the same previous mapped abstract state and
/// the same observation get the same verdict from `check_simulation`, where
/// the models and the mapping obey their specs and the abstract model
/// offers one sequence of candidates for them.
pub proof fn lemma_check_sees_only_observations<C, A, Mapping>(
    model: RefinementModel<C, A, Mapping>,
    first: RefinementModelState<C, A, Mapping>,
    second: RefinementModelState<C, A, Mapping>,
    first_ok: bool,
    second_ok: bool,
) where
    C: Model,
    C::Action: Clone,
    C::State: Clone + Debug + Hash,
    A: Model,
    A::State: Clone + PartialEq + Debug + Hash,
    Mapping: RefinementMapping<C, A>,
    Mapping::AuxState: Clone + Hash + Debug,
    requires
        model.obeys_check_spec(),
        first.prev_mapped() == second.prev_mapped(),
        model.observation(first) == model.observation(second),
        forall|one: Seq<A::State>, other: Seq<A::State>|
            #[trigger] model.abstract_candidates(first, one) && #[trigger] model.abstract_candidates(
                first,
                other,
            ) ==> one == other,
        model.check_outcome(first, first_ok),
        model.check_outcome(second, second_ok),
    ensures
        first_ok == second_ok,
{
    if !model.stutters(first) {
        let one = choose|candidates: Seq<A::State>|
            #[trigger] model.abstract_candidates(first, candidates) && first_ok == model.observed_among(
                candidates,
                model.observation(first),
            );
        let other = choose|candidates: Seq<A::State>|
            #[trigger] model.abstract_candidates(second, candidates) && second_ok
                == model.observed_among(candidates, model.observation(second));
        assert(model.abstract_candidates(first, other));
    }
}

/// A coarser observable accepts every step that a finer one accepts: of two
/// refinement models with the same abstract model, whose mappings obey their
/// specs and where observations equal under the finer mapping are equal
/// under the coarser one, the coarser passes `check_simulation` on a state
/// wherever the finer passes it on a state with the same previous and
/// current mapped abstract states, where the abstract model offers one
/// sequence of candidates for them.
pub proof fn lemma_coarser_check_accepts_more<C, A, Finer, Coarser>(
    finer: RefinementModel<C, A, Finer>,
    coarser: RefinementModel<C, A, Coarser>,
    finer_state: RefinementModelState<C, A, Finer>,
    coarser_state: RefinementModelState<C, A, Coarser>,
    finer_ok: bool,
    coarser_ok: bool,
) where
    C: Model,
    C::Action: Clone,
    C::State: Clone + Debug + Hash,
    A: Model,
    A::State: Clone + PartialEq + Debug + Hash,
    Finer: RefinementMapping<C, A>,
    Finer::AuxState: Clone + Hash + Debug,
    Coarser: RefinementMapping<C, A>,
    Coarser::AuxState: Clone + Hash + Debug,

    requires
        finer.obeys_check_spec(),
        coarser.obeys_check_spec(),
        finer.abstract_spec() == coarser.abstract_spec(),
        finer_state.prev_mapped() == coarser_state.prev_mapped(),
        finer_state.mapped() == coarser_state.mapped(),
        forall|x: A::State, y: A::State|
            #[trigger] finer.mapper().spec_observe(x).eq_spec(&finer.mapper().spec_observe(y))
                ==> coarser.mapper().spec_observe(x).eq_spec(&coarser.mapper().spec_observe(y)),
        forall|one: Seq<A::State>, other: Seq<A::State>|
            #[trigger] coarser.abstract_candidates(coarser_state, one)
                && #[trigger] coarser.abstract_candidates(coarser_state, other) ==> one == other,
        finer.check_outcome(finer_state, finer_ok),
        coarser.check_outcome(coarser_state, coarser_ok),
    ensures
        finer_ok ==> coarser_ok,
{
    let cur = finer_state.mapped();
    if finer_ok && !coarser.stutters(coarser_state) {
        if finer.stutters(finer_state) {
            let prev = finer_state.prev_mapped()->0;
            assert(finer.mapper().spec_observe(prev).eq_spec(&finer.mapper().spec_observe(cur)));
        } else {
            let one = choose|candidates: Seq<A::State>|
                #[trigger] finer.abstract_candidates(finer_state, candidates) && finer_ok
                    == finer.observed_among(candidates, finer.observation(finer_state));
            let other = choose|candidates: Seq<A::State>|
                #[trigger] coarser.abstract_candidates(coarser_state, candidates) && coarser_ok
                    == coarser.observed_among(candidates, coarser.observation(coarser_state));
            assert(coarser.abstract_candidates(coarser_state, one));
            let i = choose|i: int|
                0 <= i < one.len() && finer.mapper().spec_observe(#[trigger] one[i]).eq_spec(
                    &finer.observation(finer_state),
                );
            assert(finer.mapper().spec_observe(one[i]).eq_spec(&finer.mapper().spec_observe(cur)));
            assert(coarser.mapper().spec_observe(one[i]).eq_spec(&coarser.observation(coarser_state)));
        }
    }
}

/// Strict L-simulation is the case where the observable is the mapped
/// abstract state itself, compared by `==`: `check_simulation` then passes
/// a state whose mapped abstract state did not change, and otherwise
/// exactly when its mapped abstract state is one of the candidates that the
/// abstract model offers, where the models and the mapping obey their specs.
pub proof fn lemma_strict_check<C, A, Mapping>(
    model: RefinementModel<C, A, Mapping>,
    state: RefinementModelState<C, A, Mapping>,
    ok: bool,
) where
    C: Model,
    C::Action: Clone,
    C::State: Clone + Debug + Hash,
    A: Model,
    A::State: Clone + Eq + Debug + Hash,
    Mapping: RefinementMapping<C, A, Observable = A::State>,
    Mapping::AuxState: Clone + Hash + Debug,

    requires
        model.obeys_check_spec(),
        forall|a: A::State| #[trigger] model.mapper().spec_observe(a) == a,
        forall|x: A::State, y: A::State| #[trigger] x.eq_spec(&y) <==> x == y,
        model.check_outcome(state, ok),
    ensures
        state.prev_mapped() == Some(state.mapped()) ==> ok,
        state.prev_mapped() != Some(state.mapped()) ==> exists|candidates: Seq<A::State>|
            #[trigger] model.abstract_candidates(state, candidates) && ok == candidates.contains(
                state.mapped(),
            ),
{
    let cur = state.mapped();
    assert(model.observation(state) == cur);
    if state.prev_mapped() == Some(cur) {
        assert(model.mapper().spec_observe(cur).eq_spec(&model.observation(state)));
    } else {
        if let Some(prev) = state.prev_mapped() {
            assert(model.mapper().spec_observe(prev) == prev);
            assert(!prev.eq_spec(&cur));
        }
        let candidates = choose|candidates: Seq<A::State>|
            #[trigger] model.abstract_candidates(state, candidates) && ok == model.observed_among(
                candidates,
                model.observation(state),
            );
        if candidates.contains(cur) {
            let i = choose|i: int| 0 <= i < candidates.len() && candidates[i] == cur;
            assert(model.mapper().spec_observe(candidates[i]) == cur);
            assert(cur.eq_spec(&cur));
        }
        if model.observed_among(candidates, cur) {
            let i = choose|i: int|
                0 <= i < candidates.len() && model.mapper().spec_observe(#[trigger] candidates[i]).eq_spec(&cur);
            assert(model.mapper().spec_observe(candidates[i]) == candidates[i]);
            assert(candidates[i] == cur);
        }
    }
}

/// Where observations compare by an equivalence, two steps of a run stand
/// on the same abstract node of its drawing exactly when their observations
/// are equal.
pub proof fn lemma_abstract_nodes_shared_by_observation<C, A, Mapping>(
    model: RefinementModel<C, A, Mapping>,
    steps: Seq<(RefinementModelState<C, A, Mapping>, Option<C::Action>)>,
    observations: Seq<Mapping::Observable>,
    fingerprints: Seq<u64>,
    nodes: Seq<NodeMeta>,
    slots: Seq<usize>,
) where
    C: Model,
    C::Action: Clone,
    C::State: Clone + Debug + Hash,
    A: Model,
    A::State: Clone + PartialEq + Debug + Hash,
    Mapping: RefinementMapping<C, A>,
    Mapping::AuxState: Clone + Hash + Debug,

    requires
        model.abstract_layer_of(steps, observations, fingerprints, nodes, slots),
        Mapping::Observable::obeys_eq_spec(),
        is_equivalence(same_observation::<Mapping::Observable>()),
    ensures
        forall|i: int, j: int|
            0 <= i < steps.len() && 0 <= j < steps.len() ==> (#[trigger] slots[i] == #[trigger] slots[j]
                <==> observations[i].eq_spec(&observations[j])),
{
    lemma_layer_classes(observations, same_observation::<Mapping::Observable>());
    let same = same_observation::<Mapping::Observable>();
    assert forall|i: int, j: int|
        0 <= i < steps.len() && 0 <= j < steps.len() implies (#[trigger] slots[i] == #[trigger] slots[j]
            <==> observations[i].eq_spec(&observations[j])) by {
        assert(slots[i] as nat == layer_slots(observations, same)[i]);
        assert(slots[j] as nat == layer_slots(observations, same)[j]);
        assert(same(observations[i], observations[j]) == observations[i].eq_spec(&observations[j]));
    }
}

/// A finished search of a refinement model checks simulation on every run,
/// where the models and the mapping obey their specs, the model's
/// `next_state` has one outcome per state and action, and no state on a run
/// shares a fingerprint with the state of a different node: the search's
/// only property is `check_simulation`;
/// it has no discovery exactly when every state on every run from the
/// initial states passes the check; and a discovery is a state that ends
/// such a run and fails the check.
pub proof fn lemma_search_checks_simulation<C, A, Mapping>(
    checker: BfsChecker<RefinementModel<C, A, Mapping>>,
) where
    C: Model + Hash,
    C::Action: Clone,
    C::State: Clone + Debug + Hash,
    A: Model + Hash,
    A::State: Clone + PartialEq + Debug + Hash,
    Mapping: RefinementMapping<C, A> + Hash,
    Mapping::AuxState: Clone + Hash + Debug,

    requires
        checker.wf(),
        checker.explored(),
        checker.done(),
        exists|properties: Vec<Property>|
            #[trigger] call_ensures(
                RefinementModel::<C, A, Mapping>::properties,
                (&checker.searched(),),
                properties,
            ) && properties@ == checker.properties(),
        RefinementModel::<C, A, Mapping>::obeys_model_spec(),
        deterministic(checker.searched()),
        runs_without_collisions(checker),
    ensures
        checker.properties().len() == 1,
        checker.named("check_simulation"@) == Some(0int),
        checker.discovery_of(0) is None ==> forall|run: Seq<RefinementModelState<C, A, Mapping>>, k: int|
            #![trigger is_run(checker.searched(), checker.initial_states(), run), run[k]]
            is_run(checker.searched(), checker.initial_states(), run) && 0 <= k < run.len()
                ==> checker.searched().check_outcome(run[k], true),
        checker.discovery_of(0) matches Some(n) ==> exists|run: Seq<RefinementModelState<C, A, Mapping>>|
            #[trigger] is_run(checker.searched(), checker.initial_states(), run) && run.last()
                == checker.nodes()[n].state && checker.searched().check_outcome(run.last(), false),
{
    let model = checker.searched();
    let properties = choose|properties: Vec<Property>|
        #[trigger] call_ensures(RefinementModel::<C, A, Mapping>::properties, (&model,), properties)
            && properties@ == checker.properties();
    assert(first_named(checker.properties(), "check_simulation"@, 0) == Some(0int));
    lemma_always_verdict(checker, 0);
    if checker.discovery_of(0) is None {
        assert forall|run: Seq<RefinementModelState<C, A, Mapping>>, k: int|
            is_run(model, checker.initial_states(), run) && 0 <= k < run.len()
            implies #[trigger] model.check_outcome(run[k], true) by {
            assert(evaluates_to(model, 0, run[k], true));
        }
    } else {
        let n = checker.discovery_of(0)->0;
        let run = choose|run: Seq<RefinementModelState<C, A, Mapping>>|
            #[trigger] is_run(model, checker.initial_states(), run) && run.last() == checker.nodes()[n].state
                && evaluates_to(model, 0, run.last(), false);
        assert(model.check_outcome(run.last(), false));
    }
}

} // verus!
