// The MinMax specifications: a server answers each input with whether it
// is the largest (Hi), smallest (Lo), both or neither of the inputs so far.
// MinMax1 remembers all inputs; MinMax2 only the smallest and largest.
// Each refines the other: MinMax2 needs the history of inputs as auxiliary
// state to be mapped onto MinMax1.

use stateright::checker::ModelChecking;
use stateright::model::Model;
use stateright::refinement_mapping::{RefinementMapping, RefinementModel};

#[derive(Debug, Clone, Hash, PartialEq, Eq)]
enum Turn {
    Input,
    Output,
}

#[derive(Debug, Clone, Hash, PartialEq, Eq)]
enum Response {
    Lo,
    Hi,
    Both,
    Neither,
}

#[derive(Debug, Clone, Hash, PartialEq, Eq)]
enum XType {
    Input(usize),
    Output(Response),
}

#[derive(Debug, Clone, Hash, PartialEq, Eq)]
enum MinMaxAction {
    InputNum,
    Respond,
}

fn response(x: usize, min: usize, max: usize) -> Response {
    if x == max && x == min {
        Response::Both
    } else if x == max {
        Response::Hi
    } else if x == min {
        Response::Lo
    } else {
        Response::Neither
    }
}

#[derive(Debug, Clone, Hash, PartialEq, Eq)]
struct MinMax1State {
    x: Option<XType>,
    turn: Turn,
    y: Vec<usize>,
    idx: usize,
}

#[derive(Debug, Clone, Hash, PartialEq, Eq)]
struct MinMax1 {
    user_input: Vec<usize>,
}

impl Model for MinMax1 {
    type State = MinMax1State;
    type Action = MinMaxAction;

    fn init_states(&self) -> Vec<Self::State> {
        vec![MinMax1State {
            x: None,
            turn: Turn::Input,
            y: vec![],
            idx: 0,
        }]
    }

    fn actions(&self, state: &Self::State, actions: &mut Vec<Self::Action>) {
        match state.turn {
            Turn::Input => actions.push(MinMaxAction::InputNum),
            Turn::Output => actions.push(MinMaxAction::Respond),
        }
    }

    fn next_state(&self, last: &Self::State, action: Self::Action) -> Option<Self::State> {
        if last.idx == self.user_input.len() {
            return None;
        }
        let mut state = last.clone();
        match action {
            MinMaxAction::InputNum => {
                state.turn = Turn::Output;
                state.x = Some(XType::Input(self.user_input[last.idx]));
                state.idx += 1;
            }
            MinMaxAction::Respond => {
                state.turn = Turn::Input;
                if let Some(XType::Input(x)) = last.x {
                    state.y.push(x);
                    let max = *state.y.iter().max().unwrap();
                    let min = *state.y.iter().min().unwrap();
                    state.x = Some(XType::Output(response(x, min, max)));
                }
            }
        }
        Some(state)
    }
}

#[derive(Debug, Clone, Hash, PartialEq, Eq)]
struct MinMax2State {
    x: Option<XType>,
    turn: Turn,
    min: usize,
    max: usize,
    idx: usize,
}

#[derive(Debug, Clone, Hash, PartialEq, Eq)]
struct MinMax2 {
    user_input: Vec<usize>,
}

impl Model for MinMax2 {
    type State = MinMax2State;
    type Action = MinMaxAction;

    fn init_states(&self) -> Vec<Self::State> {
        vec![MinMax2State {
            x: None,
            turn: Turn::Input,
            min: usize::MAX,
            max: usize::MIN,
            idx: 0,
        }]
    }

    fn actions(&self, state: &Self::State, actions: &mut Vec<Self::Action>) {
        match state.turn {
            Turn::Input => actions.push(MinMaxAction::InputNum),
            Turn::Output => actions.push(MinMaxAction::Respond),
        }
    }

    fn next_state(&self, last: &Self::State, action: Self::Action) -> Option<Self::State> {
        if last.idx == self.user_input.len() {
            return None;
        }
        let mut state = last.clone();
        match action {
            MinMaxAction::InputNum => {
                state.turn = Turn::Output;
                state.x = Some(XType::Input(self.user_input[last.idx]));
                state.idx += 1;
            }
            MinMaxAction::Respond => {
                state.turn = Turn::Input;
                if let Some(XType::Input(x)) = last.x {
                    state.min = x.min(last.min);
                    state.max = x.max(last.max);
                    state.x = Some(XType::Output(response(x, state.min, state.max)));
                }
            }
        }
        Some(state)
    }
}

// MinMax1 refines MinMax2 with min and max taken from the inputs so far.
#[derive(Debug, Clone, Hash, PartialEq, Eq)]
struct Mapper1to2 {
    abstract_model: MinMax2,
}

impl RefinementMapping<MinMax1, MinMax2> for Mapper1to2 {
    type AuxState = ();
    type Observable = MinMax2State;

    fn abstract_model(&self) -> &MinMax2 {
        &self.abstract_model
    }

    fn init_aux_state(&self, _: &MinMax1State) {}

    fn advance_aux_state(&self, _: &MinMax1State, _: &(), _: &MinMaxAction, _: &MinMax1State) {}

    fn refinement_map(&self, concrete: &MinMax1State, _: &()) -> MinMax2State {
        MinMax2State {
            x: concrete.x.clone(),
            turn: concrete.turn.clone(),
            min: *concrete.y.iter().min().unwrap_or(&usize::MAX),
            max: *concrete.y.iter().max().unwrap_or(&usize::MIN),
            idx: concrete.idx,
        }
    }

    fn observe(&self, a: &MinMax2State) -> MinMax2State {
        a.clone()
    }
}

// MinMax2 refines MinMax1 with the history of inputs as auxiliary state.
#[derive(Debug, Clone, Hash, PartialEq, Eq)]
struct Mapper2to1 {
    abstract_model: MinMax1,
    // record the input when it is read rather than when it is answered
    record_early: bool,
}

impl RefinementMapping<MinMax2, MinMax1> for Mapper2to1 {
    type AuxState = Vec<usize>;
    type Observable = MinMax1State;

    fn abstract_model(&self) -> &MinMax1 {
        &self.abstract_model
    }

    fn init_aux_state(&self, _: &MinMax2State) -> Vec<usize> {
        vec![]
    }

    fn advance_aux_state(
        &self,
        last_concrete: &MinMax2State,
        last_aux: &Vec<usize>,
        action: &MinMaxAction,
        next_concrete: &MinMax2State,
    ) -> Vec<usize> {
        let mut history = last_aux.clone();
        match (action, self.record_early) {
            (MinMaxAction::InputNum, true) => {
                if let Some(XType::Input(n)) = next_concrete.x {
                    history.push(n);
                }
            }
            (MinMaxAction::Respond, false) => {
                if let Some(XType::Input(n)) = last_concrete.x {
                    history.push(n);
                }
            }
            _ => {}
        }
        history
    }

    fn refinement_map(&self, concrete: &MinMax2State, aux: &Vec<usize>) -> MinMax1State {
        MinMax1State {
            x: concrete.x.clone(),
            turn: concrete.turn.clone(),
            y: aux.clone(),
            idx: concrete.idx,
        }
    }

    fn observe(&self, a: &MinMax1State) -> MinMax1State {
        a.clone()
    }
}

#[test]
fn min_max_1_refines_min_max_2() {
    let user_input = vec![4, 1, 2, 3];
    let model = RefinementModel::new(
        MinMax1 {
            user_input: user_input.clone(),
        },
        Mapper1to2 {
            abstract_model: MinMax2 { user_input },
        },
    );
    let checker = model.checker().spawn_bfs().join();
    assert!(checker.discovery("check_simulation").is_none());
    // one state per read and answer, the last input left unanswered
    assert_eq!(checker.state_count(), 8);
}

#[test]
fn min_max_2_refines_min_max_1_with_a_history() {
    let user_input = vec![4, 1, 2, 3];
    let model = RefinementModel::new(
        MinMax2 {
            user_input: user_input.clone(),
        },
        Mapper2to1 {
            abstract_model: MinMax1 { user_input },
            record_early: false,
        },
    );
    let checker = model.checker().spawn_bfs().join();
    assert!(checker.discovery("check_simulation").is_none());
}

#[test]
fn history_recorded_too_early_breaks_the_refinement() {
    let user_input = vec![4, 1, 2, 3];
    let model = RefinementModel::new(
        MinMax2 {
            user_input: user_input.clone(),
        },
        Mapper2to1 {
            abstract_model: MinMax1 { user_input },
            record_early: true,
        },
    );
    let checker = model.checker().spawn_bfs().join();
    let path = checker.discovery("check_simulation").unwrap();
    // the first read already disagrees with the abstract history
    assert_eq!(path.len(), 2);
    assert_eq!(path.last_state().unwrap().aux_state(), &vec![4]);
}
