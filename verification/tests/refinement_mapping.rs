use stateright::checker::ModelChecking;
use stateright::model::{next_states, Expectation, Model, Path, Property};
use stateright::refinement_mapping::{RefinementMapping, RefinementModel};
use stateright::svg::fingerprint;

// ------------------------------------------------------------
// Toy concrete/abstract pair used by all tests below.
//
// Abstract: a monotonic counter plus an internal `ticks` field that
// increments on every step. `ticks` is "bookkeeping": depending on
// the mapper's choice of Observable it may or may not be part of the
// refinement contract.
//
// Concrete: the same counter without `ticks` (the concrete doesn't
// track it). A mapper has to decide how to populate `ticks` in the
// mapped abstract state.
// ------------------------------------------------------------

#[derive(Clone, Debug, Hash, PartialEq, Eq)]
struct AbsState {
    counter: u32,
    ticks: u32,
}

#[derive(Clone, Debug, Hash, PartialEq, Eq)]
struct AbsAction;

#[derive(Clone, Debug, Hash, PartialEq, Eq)]
struct AbsModel {
    max_counter: u32,
}

impl Model for AbsModel {
    type State = AbsState;
    type Action = AbsAction;

    fn init_states(&self) -> Vec<Self::State> {
        vec![AbsState {
            counter: 0,
            ticks: 0,
        }]
    }

    fn actions(&self, state: &Self::State, actions: &mut Vec<Self::Action>) {
        if state.counter < self.max_counter {
            actions.push(AbsAction);
        }
    }

    fn next_state(&self, last: &Self::State, _: Self::Action) -> Option<Self::State> {
        Some(AbsState {
            counter: last.counter + 1,
            ticks: last.ticks + 1,
        })
    }
}

#[derive(Clone, Debug, Hash, PartialEq, Eq)]
struct ConState {
    counter: u32,
}

#[derive(Clone, Debug, Hash, PartialEq, Eq)]
struct ConAction;

#[derive(Clone, Debug, Hash, PartialEq, Eq)]
struct ConModel {
    max_counter: u32,
}

impl Model for ConModel {
    type State = ConState;
    type Action = ConAction;

    fn init_states(&self) -> Vec<Self::State> {
        vec![ConState { counter: 0 }]
    }

    fn actions(&self, state: &Self::State, actions: &mut Vec<Self::Action>) {
        if state.counter < self.max_counter {
            actions.push(ConAction);
        }
    }

    fn next_state(&self, last: &Self::State, _: Self::Action) -> Option<Self::State> {
        Some(ConState {
            counter: last.counter + 1,
        })
    }
}

// --- Test 1: strict simulation (Observable = AbsState). The mapper
// sets `ticks = 0` always, which does NOT match the abstract's
// progression. Under the strict Observable this is visible and the
// check must fail. ---

#[derive(Clone, Debug, Hash, PartialEq, Eq)]
struct StrictGarbageMapper {
    abstract_model: AbsModel,
}

impl RefinementMapping<ConModel, AbsModel> for StrictGarbageMapper {
    type AuxState = ();
    type Observable = AbsState;

    fn abstract_model(&self) -> &AbsModel {
        &self.abstract_model
    }

    fn init_aux_state(&self, _: &ConState) {}
    fn advance_aux_state(&self, _: &ConState, _: &(), _: &ConAction, _: &ConState) {}

    fn refinement_map(&self, c: &ConState, _: &()) -> AbsState {
        AbsState {
            counter: c.counter,
            ticks: 0, // garbage
        }
    }

    fn observe(&self, a: &AbsState) -> AbsState {
        a.clone()
    }
}

#[test]
fn strict_observable_fails_when_bookkeeping_diverges() {
    let concrete = ConModel { max_counter: 3 };
    let abstract_ = AbsModel { max_counter: 3 };
    let mapper = StrictGarbageMapper {
        abstract_model: abstract_,
    };
    let model = RefinementModel::new(concrete, mapper);
    let checker = model.checker().spawn_bfs().join();
    assert!(
        checker.discovery("check_simulation").is_some(),
        "strict Observable should fail when refinement_map produces garbage ticks"
    );
}

// --- Test 2: weak simulation: Observable hides `ticks`. Same broken
// mapper logic as test 1, now the check passes because bookkeeping is
// invisible. ---

#[derive(Clone, Debug, Eq, PartialEq)]
struct CounterObs {
    counter: u32,
}

#[derive(Clone, Debug, Hash, PartialEq, Eq)]
struct WeakTicksMapper {
    abstract_model: AbsModel,
}

impl RefinementMapping<ConModel, AbsModel> for WeakTicksMapper {
    type AuxState = ();
    type Observable = CounterObs;

    fn abstract_model(&self) -> &AbsModel {
        &self.abstract_model
    }

    fn init_aux_state(&self, _: &ConState) {}
    fn advance_aux_state(&self, _: &ConState, _: &(), _: &ConAction, _: &ConState) {}

    fn refinement_map(&self, c: &ConState, _: &()) -> AbsState {
        AbsState {
            counter: c.counter,
            ticks: 0, // still garbage, but ignored by `observe`
        }
    }

    fn observe(&self, a: &AbsState) -> CounterObs {
        CounterObs { counter: a.counter }
    }
}

#[test]
fn weak_observable_passes_when_bookkeeping_hidden() {
    let concrete = ConModel { max_counter: 3 };
    let abstract_ = AbsModel { max_counter: 3 };
    let mapper = WeakTicksMapper {
        abstract_model: abstract_,
    };
    let model = RefinementModel::new(concrete, mapper);
    let checker = model.checker().spawn_bfs().join();
    assert!(
        checker.discovery("check_simulation").is_none(),
        "Observable projecting away `ticks` should accept the mapping"
    );
}

// --- Test 3: L-simulation match via `observe` across a longer trace.
// Every concrete step must find an abstract transition whose next
// state's observation matches, exercising the search, not
// just stutters. ---

#[test]
fn weak_observable_matches_abstract_transitions() {
    let concrete = ConModel { max_counter: 8 };
    let abstract_ = AbsModel { max_counter: 8 };
    let mapper = WeakTicksMapper {
        abstract_model: abstract_,
    };
    let model = RefinementModel::new(concrete, mapper);
    let checker = model.checker().spawn_bfs().join();
    assert!(
        checker.discovery("check_simulation").is_none(),
        "L-simulation should match via observe across the full trace"
    );
    assert!(checker.state_count() >= 8);
}

// --- Further checks of the refinement model on the same toy pair. ---

#[derive(Clone, Debug, Hash, PartialEq, Eq)]
struct TrackingMapper {
    abstract_model: AbsModel,
}

impl RefinementMapping<ConModel, AbsModel> for TrackingMapper {
    type AuxState = ();
    type Observable = AbsState;

    fn abstract_model(&self) -> &AbsModel {
        &self.abstract_model
    }

    fn init_aux_state(&self, _: &ConState) {}
    fn advance_aux_state(&self, _: &ConState, _: &(), _: &ConAction, _: &ConState) {}

    fn refinement_map(&self, c: &ConState, _: &()) -> AbsState {
        AbsState {
            counter: c.counter,
            ticks: c.counter,
        }
    }

    fn observe(&self, a: &AbsState) -> AbsState {
        a.clone()
    }
}

fn weak_model(max_counter: u32) -> RefinementModel<ConModel, AbsModel, WeakTicksMapper> {
    RefinementModel::new(
        ConModel { max_counter },
        WeakTicksMapper {
            abstract_model: AbsModel { max_counter },
        },
    )
}

fn strict_model(max_counter: u32) -> RefinementModel<ConModel, AbsModel, StrictGarbageMapper> {
    RefinementModel::new(
        ConModel { max_counter },
        StrictGarbageMapper {
            abstract_model: AbsModel { max_counter },
        },
    )
}

#[test]
fn strict_observable_passes_when_bookkeeping_tracked() {
    let model = RefinementModel::new(
        ConModel { max_counter: 3 },
        TrackingMapper {
            abstract_model: AbsModel { max_counter: 3 },
        },
    );
    let checker = model.checker().spawn_bfs().join();
    assert!(checker.discovery("check_simulation").is_none());
    assert_eq!(checker.state_count(), 4);
}

#[test]
fn init_states_pair_each_concrete_state_with_its_image() {
    let model = weak_model(3);
    let states = model.init_states();
    assert_eq!(states.len(), 1);
    let state = &states[0];
    assert_eq!(state.concrete_state(), &ConState { counter: 0 });
    assert_eq!(state.aux_state(), &());
    assert_eq!(state.mapped_abstract_state(), &AbsState { counter: 0, ticks: 0 });
    assert_eq!(state.prev_mapped_abstract_state(), &None);
    assert!(state.abstract_candidates_from_prev().is_empty());
}

#[test]
fn next_state_maps_the_concrete_step_and_remembers_the_previous_image() {
    let model = strict_model(3);
    let init = model.init_states().remove(0);
    let next = model.next_state(&init, ConAction).unwrap();
    assert_eq!(next.concrete_state(), &ConState { counter: 1 });
    assert_eq!(next.mapped_abstract_state(), &AbsState { counter: 1, ticks: 0 });
    assert_eq!(
        next.prev_mapped_abstract_state(),
        &Some(AbsState { counter: 0, ticks: 0 })
    );
    assert_eq!(
        next.abstract_candidates_from_prev(),
        &vec![AbsState { counter: 1, ticks: 1 }]
    );
}

#[derive(Clone, Debug, Hash, PartialEq, Eq)]
struct StuckModel;

impl Model for StuckModel {
    type State = ConState;
    type Action = ConAction;

    fn init_states(&self) -> Vec<Self::State> {
        vec![ConState { counter: 0 }]
    }

    fn actions(&self, _: &Self::State, actions: &mut Vec<Self::Action>) {
        actions.push(ConAction);
    }

    fn next_state(&self, _: &Self::State, _: Self::Action) -> Option<Self::State> {
        None
    }
}

#[derive(Clone, Debug, Hash, PartialEq, Eq)]
struct StuckMapper {
    abstract_model: AbsModel,
}

impl RefinementMapping<StuckModel, AbsModel> for StuckMapper {
    type AuxState = u32;
    type Observable = u32;

    fn abstract_model(&self) -> &AbsModel {
        &self.abstract_model
    }

    fn init_aux_state(&self, c: &ConState) -> u32 {
        c.counter + 7
    }

    fn advance_aux_state(&self, _: &ConState, aux: &u32, _: &ConAction, _: &ConState) -> u32 {
        aux + 1
    }

    fn refinement_map(&self, c: &ConState, _: &u32) -> AbsState {
        AbsState {
            counter: c.counter,
            ticks: 0,
        }
    }

    fn observe(&self, a: &AbsState) -> u32 {
        a.counter
    }
}

#[test]
fn next_state_is_none_where_the_concrete_model_ignores_the_action() {
    let model = RefinementModel::new(
        StuckModel,
        StuckMapper {
            abstract_model: AbsModel { max_counter: 3 },
        },
    );
    let init = model.init_states().remove(0);
    assert_eq!(init.aux_state(), &7);
    let mut actions = Vec::new();
    model.actions(&init, &mut actions);
    assert_eq!(actions, vec![ConAction]);
    assert!(model.next_state(&init, ConAction).is_none());
    let checker = model.checker().spawn_bfs().join();
    assert_eq!(checker.state_count(), 1);
    assert!(checker.discovery("check_simulation").is_none());
}

#[test]
fn actions_are_those_of_the_concrete_model() {
    let model = weak_model(1);
    let init = model.init_states().remove(0);
    let mut actions = Vec::new();
    model.actions(&init, &mut actions);
    assert_eq!(actions, vec![ConAction]);
    let next = model.next_state(&init, ConAction).unwrap();
    let mut more = Vec::new();
    model.actions(&next, &mut more);
    assert!(more.is_empty());
}

#[test]
fn check_simulation_accepts_an_initial_state_with_an_abstract_match() {
    let model = strict_model(3);
    let init = model.init_states().remove(0);
    assert!(RefinementModel::check_simulation(&model, &init));
    assert!(model.property_holds(0, &init));
}

#[test]
fn check_simulation_rejects_a_step_no_abstract_transition_matches() {
    let model = strict_model(3);
    let init = model.init_states().remove(0);
    let next = model.next_state(&init, ConAction).unwrap();
    assert!(!RefinementModel::check_simulation(&model, &next));
    assert!(!model.property_holds(0, &next));
    // there is no other property
    assert!(model.property_holds(1, &next));
}

#[test]
fn check_simulation_accepts_a_step_matched_on_the_observable() {
    let model = weak_model(3);
    let init = model.init_states().remove(0);
    let next = model.next_state(&init, ConAction).unwrap();
    assert!(RefinementModel::check_simulation(&model, &next));
}

#[derive(Clone, Debug, Hash, PartialEq, Eq)]
struct ShiftedMapper {
    abstract_model: AbsModel,
}

impl RefinementMapping<ConModel, AbsModel> for ShiftedMapper {
    type AuxState = ();
    type Observable = CounterObs;

    fn abstract_model(&self) -> &AbsModel {
        &self.abstract_model
    }

    fn init_aux_state(&self, _: &ConState) {}
    fn advance_aux_state(&self, _: &ConState, _: &(), _: &ConAction, _: &ConState) {}

    fn refinement_map(&self, c: &ConState, _: &()) -> AbsState {
        AbsState {
            counter: c.counter + 5,
            ticks: 0,
        }
    }

    fn observe(&self, a: &AbsState) -> CounterObs {
        CounterObs { counter: a.counter }
    }
}

#[test]
fn an_initial_state_without_abstract_match_is_the_first_counterexample() {
    let model = RefinementModel::new(
        ConModel { max_counter: 3 },
        ShiftedMapper {
            abstract_model: AbsModel { max_counter: 3 },
        },
    );
    let init = model.init_states().remove(0);
    assert!(!RefinementModel::check_simulation(&model, &init));
    let checker = model.checker().spawn_bfs().join();
    let path = checker.discovery("check_simulation").unwrap();
    assert_eq!(path.len(), 1);
    let steps = path.into_vec();
    assert_eq!(steps[0].0.concrete_state(), &ConState { counter: 0 });
    assert!(steps[0].1.is_none());
}

#[derive(Clone, Debug, Hash, PartialEq, Eq)]
struct HalfState {
    counter: u32,
    half: bool,
}

#[derive(Clone, Debug, Hash, PartialEq, Eq)]
struct HalfStepModel {
    max_counter: u32,
}

impl Model for HalfStepModel {
    type State = HalfState;
    type Action = ConAction;

    fn init_states(&self) -> Vec<Self::State> {
        vec![HalfState {
            counter: 0,
            half: false,
        }]
    }

    fn actions(&self, state: &Self::State, actions: &mut Vec<Self::Action>) {
        if state.counter < self.max_counter {
            actions.push(ConAction);
        }
    }

    fn next_state(&self, last: &Self::State, _: Self::Action) -> Option<Self::State> {
        if last.half {
            Some(HalfState {
                counter: last.counter + 1,
                half: false,
            })
        } else {
            Some(HalfState {
                counter: last.counter,
                half: true,
            })
        }
    }
}

#[derive(Clone, Debug, Hash, PartialEq, Eq)]
struct HalfStepMapper {
    abstract_model: AbsModel,
}

impl RefinementMapping<HalfStepModel, AbsModel> for HalfStepMapper {
    type AuxState = ();
    type Observable = CounterObs;

    fn abstract_model(&self) -> &AbsModel {
        &self.abstract_model
    }

    fn init_aux_state(&self, _: &HalfState) {}
    fn advance_aux_state(&self, _: &HalfState, _: &(), _: &ConAction, _: &HalfState) {}

    fn refinement_map(&self, c: &HalfState, _: &()) -> AbsState {
        AbsState {
            counter: c.counter,
            ticks: 0,
        }
    }

    fn observe(&self, a: &AbsState) -> CounterObs {
        CounterObs { counter: a.counter }
    }
}

#[test]
fn steps_that_keep_the_observation_are_stutters() {
    let model = RefinementModel::new(
        HalfStepModel { max_counter: 2 },
        HalfStepMapper {
            abstract_model: AbsModel { max_counter: 2 },
        },
    );
    let init = model.init_states().remove(0);
    let half = model.next_state(&init, ConAction).unwrap();
    assert!(RefinementModel::check_simulation(&model, &half));
    let checker = model.checker().spawn_bfs().join();
    assert!(checker.discovery("check_simulation").is_none());
    // counter 0, 0 (half), 1, 1 (half), 2
    assert_eq!(checker.state_count(), 5);
}

#[test]
fn the_only_property_is_check_simulation() {
    let model = weak_model(3);
    let properties = model.properties();
    assert_eq!(properties.len(), 1);
    assert_eq!(properties[0].name, "check_simulation");
    assert_eq!(properties[0].expectation, Expectation::Always);
}

#[test]
fn the_counterexample_path_leads_to_the_first_failing_step() {
    let model = strict_model(3);
    let checker = model.checker().spawn_bfs().join();
    let path = checker.discovery("check_simulation").unwrap();
    assert_eq!(path.len(), 2);
    assert_eq!(path.last_state().unwrap().concrete_state(), &ConState { counter: 1 });
    let steps = path.into_vec();
    assert_eq!(steps[0].0.concrete_state(), &ConState { counter: 0 });
    assert!(steps[0].1.is_none());
    assert_eq!(steps[1].1, Some(ConAction));
    assert!(checker.discovery("no_such_property").is_none());
}

#[test]
fn next_states_lists_the_outcomes_of_the_enabled_actions() {
    let model = AbsModel { max_counter: 2 };
    let init = model.init_states().remove(0);
    let next = next_states(&model, &init);
    assert_eq!(next, vec![AbsState { counter: 1, ticks: 1 }]);
    let last = AbsState {
        counter: 2,
        ticks: 2,
    };
    assert!(next_states(&model, &last).is_empty());
}

#[test]
fn svg_of_an_empty_path_is_none() {
    let model = weak_model(3);
    assert!(model.as_svg(Path::from_vec(Vec::new())).is_none());
}

#[test]
fn svg_crosses_out_the_failing_step() {
    let model = strict_model(3);
    let checker = model.checker().spawn_bfs().join();
    let path = checker.discovery("check_simulation").unwrap();
    let svg = checker.model().as_svg(path).unwrap();
    assert!(svg.starts_with(
        "<svg version='1.1' baseProfile='full' width='410' height='480' viewBox='0 0 410 480' xmlns='http://www.w3.org/2000/svg'>"
    ));
    assert!(svg.ends_with("</svg>"));
    assert!(svg.contains(
        "<line x1='140' y1='80' x2='290' y2='80' class='svg-ref-edge svg-ref-edge-invalid' marker-end='url(#refinement-arrow)'/>"
    ));
    assert!(svg.contains(
        "<line x1='205' y1='70' x2='225' y2='90' class='svg-ref-invalid-cross'/><line x1='205' y1='90' x2='225' y2='70' class='svg-ref-invalid-cross'/>"
    ));
    assert!(svg.contains("<text class='svg-ref-state-text' x='140' y='80'>A0</text>"));
    assert!(svg.contains("<text class='svg-ref-state-text' x='290' y='80'>A1</text>"));
    assert!(svg.contains("<text class='svg-ref-state-text' x='290' y='200'>CA1</text>"));
    assert!(svg.contains("<text class='svg-ref-state-text' x='290' y='320'>C1</text>"));
    assert!(svg.contains(
        "<line x1='140' y1='298' x2='140' y2='222' class='svg-ref-mapping-line'/>"
    ));
    assert!(svg.contains(
        "<line x1='290' y1='178' x2='290' y2='102' class='svg-ref-mapping-line'/>"
    ));
}

#[test]
fn svg_of_a_passing_path_has_no_crossed_out_step() {
    let model = weak_model(3);
    let init = model.init_states().remove(0);
    let next = model.next_state(&init, ConAction).unwrap();
    let svg = model
        .as_svg(Path::from_vec(vec![(init, None), (next, Some(ConAction))]))
        .unwrap();
    assert!(!svg.contains("svg-ref-edge-invalid"));
    assert!(!svg.contains("svg-ref-invalid-cross"));
    assert!(svg.contains(
        "<line x1='140' y1='80' x2='290' y2='80' class='svg-ref-edge' marker-end='url(#refinement-arrow)'/>"
    ));
    assert_eq!(svg.matches("<g class='svg-ref-node'>").count(), 2 + 2 + 2);
}

#[test]
fn svg_groups_repeated_states_into_one_node() {
    let model = weak_model(3);
    let init = model.init_states().remove(0);
    let again = init.clone();
    let svg = model
        .as_svg(Path::from_vec(vec![(init, None), (again, Some(ConAction))]))
        .unwrap();
    // one concrete and one abstract node, but a middle node per step
    assert!(svg.contains("width='410'"));
    assert!(svg.contains(">C0</text>"));
    assert!(!svg.contains(">C1</text>"));
    assert!(svg.contains(">A0</text>"));
    assert!(!svg.contains(">A1</text>"));
    assert!(svg.contains(">CA1</text>"));
    assert_eq!(svg.matches("<g class='svg-ref-node'>").count(), 1 + 2 + 1);
    // the path stays on the first column in both outer layers
    assert!(svg.contains(
        "<line x1='140' y1='320' x2='140' y2='320' class='svg-ref-edge' marker-end='url(#refinement-arrow)'/>"
    ));
}

#[test]
fn svg_titles_name_the_kind_number_fingerprint_and_state() {
    let model = weak_model(3);
    let init = model.init_states().remove(0);
    let svg = model.as_svg(Path::from_vec(vec![(init, None)])).unwrap();
    assert!(svg.starts_with("<svg version='1.1' baseProfile='full' width='260' height='480'"));
    let start = svg.find("<title>Concrete state #0\nfingerprint=0x").unwrap();
    let digits = &svg[start + "<title>Concrete state #0\nfingerprint=0x".len()..][..16];
    assert!(digits.chars().all(|c| c.is_ascii_hexdigit() && !c.is_ascii_uppercase()));
    assert!(svg.contains("counter: 0"));
    assert!(svg.contains("<title>Concrete+Aux state #0\nfingerprint=0x"));
    assert!(svg.contains("Concrete: ConState"));
    assert!(svg.contains("\nAux: ()"));
    assert!(svg.contains("<title>Abstract state #0\nfingerprint=0x"));
    assert!(svg.contains("Observable: CounterObs"));
    assert!(svg.contains("\n\nMapped abstract state: AbsState"));
}

#[test]
fn svg_concrete_title_carries_the_fingerprint_of_the_concrete_state() {
    let model = weak_model(3);
    let init = model.init_states().remove(0);
    let expected = format!("{:016x}", fingerprint(init.concrete_state()));
    let mapped = format!("{:016x}", fingerprint(init.mapped_abstract_state()));
    let svg = model.as_svg(Path::from_vec(vec![(init, None)])).unwrap();
    assert!(svg.contains(&format!("<title>Concrete state #0\nfingerprint=0x{}\n", expected)));
    assert!(svg.contains(&format!("<title>Abstract state #0\nfingerprint=0x{}\n", mapped)));
}

#[test]
fn escape_html_replaces_markup_characters() {
    type Weak = RefinementModel<ConModel, AbsModel, WeakTicksMapper>;
    assert_eq!(
        Weak::escape_html("a<b>&\"c'"),
        "a&lt;b&gt;&amp;&quot;c&#x27;"
    );
    assert_eq!(Weak::escape_html("plain text"), "plain text");
    assert_eq!(Weak::escape_html(""), "");
    assert_eq!(Weak::escape_html("&amp;"), "&amp;amp;");
}

#[test]
fn escape_html_of_a_concatenation_is_the_concatenation_of_escapes() {
    type Weak = RefinementModel<ConModel, AbsModel, WeakTicksMapper>;
    let left = "x<y";
    let right = "'&z";
    let whole = format!("{}{}", left, right);
    assert_eq!(
        Weak::escape_html(&whole),
        format!("{}{}", Weak::escape_html(left), Weak::escape_html(right))
    );
    assert_eq!(Weak::escape_html(&whole), "x&lt;y&#x27;&amp;z");
}

#[test]
fn properties_are_built_with_their_expectation() {
    let always = Property::always("a");
    assert_eq!(always.expectation, Expectation::Always);
    assert_eq!(always.name, "a");
    assert!(always.is_discovered_by(false));
    assert!(!always.is_discovered_by(true));
    let sometimes = Property::sometimes("s");
    assert_eq!(sometimes.expectation, Expectation::Sometimes);
    assert!(sometimes.is_discovered_by(true));
    assert!(!sometimes.is_discovered_by(false));
}

#[test]
fn escape_html_can_be_undone_and_ampersands_start_references() {
    type Weak = RefinementModel<ConModel, AbsModel, WeakTicksMapper>;
    let input = "a<b>&c\"d'e&amp;";
    let escaped = Weak::escape_html(input);
    for (i, c) in escaped.char_indices() {
        if c == '&' {
            let rest = &escaped[i..];
            assert!(["&amp;", "&lt;", "&gt;", "&quot;", "&#x27;"]
                .iter()
                .any(|r| rest.starts_with(r)));
        }
    }
    let decoded = escaped
        .replace("&lt;", "<")
        .replace("&gt;", ">")
        .replace("&quot;", "\"")
        .replace("&#x27;", "'")
        .replace("&amp;", "&");
    assert_eq!(decoded, input);
}
