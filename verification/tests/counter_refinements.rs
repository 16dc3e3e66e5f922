// Refinement scenarios between multithreaded counters: an abstract counter
// whose threads each increment it once, atomically; a racy implementation
// that reads the counter in one step and writes it in the next; and one that
// holds a lock between reading and writing. Also the weak-simulation
// scenario where the abstract counter records which thread acted last.

use stateright::checker::ModelChecking;
use stateright::model::Model;
use stateright::refinement_mapping::{RefinementMapping, RefinementModel};

#[derive(Debug, Clone, Hash, PartialEq, Eq)]
enum AbstractPc {
    Start,
    Done,
}

#[derive(Debug, Clone, Hash, PartialEq, Eq)]
struct AbstractState {
    pc: Vec<AbstractPc>,
    counter: usize,
}

#[derive(Debug, Clone, Hash, PartialEq, Eq)]
struct AbstractCounter {
    threads: usize,
}

impl Model for AbstractCounter {
    type State = AbstractState;
    type Action = usize;

    fn init_states(&self) -> Vec<Self::State> {
        vec![AbstractState {
            pc: vec![AbstractPc::Start; self.threads],
            counter: 0,
        }]
    }

    fn actions(&self, state: &Self::State, actions: &mut Vec<Self::Action>) {
        for (idx, pc) in state.pc.iter().enumerate() {
            if *pc != AbstractPc::Done {
                actions.push(idx);
            }
        }
    }

    fn next_state(&self, last: &Self::State, idx: Self::Action) -> Option<Self::State> {
        let mut state = last.clone();
        state.pc[idx] = AbstractPc::Done;
        state.counter += 1;
        Some(state)
    }
}

#[derive(Debug, Clone, Hash, PartialEq, Eq)]
enum ImplPc {
    Start,
    Inc,
    Done,
}

#[derive(Debug, Clone, Hash, PartialEq, Eq)]
enum ImplAction {
    GetCounter(usize),
    IncCounter(usize),
}

#[derive(Debug, Clone, Hash, PartialEq, Eq)]
struct ImplState {
    pc: Vec<ImplPc>,
    counter: usize,
    tmp: Vec<usize>,
    // the thread holding the lock; `usize::MAX` when it is free
    lock: usize,
}

/// The racy counter where `locking` is false; the locked one where it is true.
#[derive(Debug, Clone, Hash, PartialEq, Eq)]
struct ImplCounter {
    threads: usize,
    locking: bool,
}

impl Model for ImplCounter {
    type State = ImplState;
    type Action = ImplAction;

    fn init_states(&self) -> Vec<Self::State> {
        vec![ImplState {
            pc: vec![ImplPc::Start; self.threads],
            counter: 0,
            tmp: vec![0; self.threads],
            lock: usize::MAX,
        }]
    }

    fn actions(&self, state: &Self::State, actions: &mut Vec<Self::Action>) {
        for idx in 0..self.threads {
            let free = !self.locking || state.lock == usize::MAX;
            let mine = !self.locking || state.lock == idx;
            if state.pc[idx] == ImplPc::Start && free {
                actions.push(ImplAction::GetCounter(idx));
            }
            if state.pc[idx] == ImplPc::Inc && mine {
                actions.push(ImplAction::IncCounter(idx));
            }
        }
    }

    fn next_state(&self, last: &Self::State, action: Self::Action) -> Option<Self::State> {
        let mut state = last.clone();
        match action {
            ImplAction::GetCounter(idx) => {
                state.pc[idx] = ImplPc::Inc;
                state.tmp[idx] = last.counter;
                if self.locking {
                    state.lock = idx;
                }
            }
            ImplAction::IncCounter(idx) => {
                state.pc[idx] = ImplPc::Done;
                state.counter = last.tmp[idx] + 1;
                if self.locking {
                    state.lock = usize::MAX;
                }
            }
        }
        Some(state)
    }
}

// A thread that has read the counter has not yet incremented it: it still
// stands at the start of the abstract counter.
#[derive(Debug, Clone, Hash, PartialEq, Eq)]
struct ImplToAbstract {
    abstract_model: AbstractCounter,
}

impl RefinementMapping<ImplCounter, AbstractCounter> for ImplToAbstract {
    type AuxState = ();
    type Observable = AbstractState;

    fn abstract_model(&self) -> &AbstractCounter {
        &self.abstract_model
    }

    fn init_aux_state(&self, _: &ImplState) {}

    fn advance_aux_state(&self, _: &ImplState, _: &(), _: &ImplAction, _: &ImplState) {}

    fn refinement_map(&self, concrete: &ImplState, _: &()) -> AbstractState {
        AbstractState {
            pc: concrete
                .pc
                .iter()
                .map(|pc| match pc {
                    ImplPc::Start | ImplPc::Inc => AbstractPc::Start,
                    ImplPc::Done => AbstractPc::Done,
                })
                .collect(),
            counter: concrete.counter,
        }
    }

    fn observe(&self, a: &AbstractState) -> AbstractState {
        a.clone()
    }
}

// The locked counter mapped onto the racy one: the lock is dropped.
#[derive(Debug, Clone, Hash, PartialEq, Eq)]
struct LockedToRacy {
    abstract_model: ImplCounter,
}

impl RefinementMapping<ImplCounter, ImplCounter> for LockedToRacy {
    type AuxState = ();
    type Observable = ImplState;

    fn abstract_model(&self) -> &ImplCounter {
        &self.abstract_model
    }

    fn init_aux_state(&self, _: &ImplState) {}

    fn advance_aux_state(&self, _: &ImplState, _: &(), _: &ImplAction, _: &ImplState) {}

    fn refinement_map(&self, concrete: &ImplState, _: &()) -> ImplState {
        ImplState {
            pc: concrete.pc.clone(),
            counter: concrete.counter,
            tmp: concrete.tmp.clone(),
            lock: usize::MAX,
        }
    }

    fn observe(&self, a: &ImplState) -> ImplState {
        a.clone()
    }
}

#[test]
fn racy_counter_does_not_refine_the_abstract_counter() {
    let model = RefinementModel::new(
        ImplCounter {
            threads: 2,
            locking: false,
        },
        ImplToAbstract {
            abstract_model: AbstractCounter { threads: 2 },
        },
    );
    let checker = model.checker().spawn_bfs().join();
    let path = checker.discovery("check_simulation").unwrap();
    // both threads read 0 and the second write leaves the counter at 1
    let last = path.last_state().unwrap();
    assert_eq!(last.concrete_state().counter, 1);
    assert_eq!(
        last.concrete_state().pc,
        vec![ImplPc::Done, ImplPc::Done]
    );
}

#[test]
fn locked_counter_refines_the_abstract_counter() {
    let model = RefinementModel::new(
        ImplCounter {
            threads: 2,
            locking: true,
        },
        ImplToAbstract {
            abstract_model: AbstractCounter { threads: 2 },
        },
    );
    let checker = model.checker().spawn_bfs().join();
    assert!(checker.discovery("check_simulation").is_none());
    // 1 + 2 + 2 + 2 + 2 states along the two interleavings
    assert_eq!(checker.state_count(), 9);
}

#[test]
fn locked_counter_refines_the_racy_counter() {
    let model = RefinementModel::new(
        ImplCounter {
            threads: 2,
            locking: true,
        },
        LockedToRacy {
            abstract_model: ImplCounter {
                threads: 2,
                locking: false,
            },
        },
    );
    let checker = model.checker().spawn_bfs().join();
    assert!(checker.discovery("check_simulation").is_none());
}

// --- Weak simulation: the abstract counter also records which thread
// acted last, which the concrete counter cannot know. ---

#[derive(Debug, Clone, Hash, PartialEq, Eq)]
struct TrackedState {
    pc: Vec<AbstractPc>,
    counter: usize,
    last_actor: Option<usize>,
}

#[derive(Debug, Clone, Hash, PartialEq, Eq)]
struct TrackedCounter {
    threads: usize,
}

impl Model for TrackedCounter {
    type State = TrackedState;
    type Action = usize;

    fn init_states(&self) -> Vec<Self::State> {
        vec![TrackedState {
            pc: vec![AbstractPc::Start; self.threads],
            counter: 0,
            last_actor: None,
        }]
    }

    fn actions(&self, state: &Self::State, actions: &mut Vec<Self::Action>) {
        for (idx, pc) in state.pc.iter().enumerate() {
            if *pc == AbstractPc::Start {
                actions.push(idx);
            }
        }
    }

    fn next_state(&self, last: &Self::State, idx: Self::Action) -> Option<Self::State> {
        let mut next = last.clone();
        next.pc[idx] = AbstractPc::Done;
        next.counter += 1;
        next.last_actor = Some(idx);
        Some(next)
    }
}

#[derive(Debug, Clone, PartialEq, Eq)]
struct PcAndCounter {
    pc: Vec<AbstractPc>,
    counter: usize,
}

/// Maps the atomic counter onto the tracking one, with `last_actor` left
/// `None`; observes everything where `strict`, and all but `last_actor`
/// otherwise.
#[derive(Debug, Clone, Hash, PartialEq, Eq)]
struct ForgetfulMapper {
    abstract_model: TrackedCounter,
    strict: bool,
}

impl RefinementMapping<AbstractCounter, TrackedCounter> for ForgetfulMapper {
    type AuxState = ();
    type Observable = (PcAndCounter, Option<Option<usize>>);

    fn abstract_model(&self) -> &TrackedCounter {
        &self.abstract_model
    }

    fn init_aux_state(&self, _: &AbstractState) {}

    fn advance_aux_state(&self, _: &AbstractState, _: &(), _: &usize, _: &AbstractState) {}

    fn refinement_map(&self, c: &AbstractState, _: &()) -> TrackedState {
        TrackedState {
            pc: c.pc.clone(),
            counter: c.counter,
            last_actor: None,
        }
    }

    fn observe(&self, a: &TrackedState) -> (PcAndCounter, Option<Option<usize>>) {
        let visible = PcAndCounter {
            pc: a.pc.clone(),
            counter: a.counter,
        };
        if self.strict {
            (visible, Some(a.last_actor))
        } else {
            (visible, None)
        }
    }
}

#[test]
fn strict_observable_exposes_the_invented_last_actor() {
    let model = RefinementModel::new(
        AbstractCounter { threads: 2 },
        ForgetfulMapper {
            abstract_model: TrackedCounter { threads: 2 },
            strict: true,
        },
    );
    let checker = model.checker().spawn_bfs().join();
    assert!(checker.discovery("check_simulation").is_some());
}

#[test]
fn weak_observable_hides_the_invented_last_actor() {
    let model = RefinementModel::new(
        AbstractCounter { threads: 2 },
        ForgetfulMapper {
            abstract_model: TrackedCounter { threads: 2 },
            strict: false,
        },
    );
    let checker = model.checker().spawn_bfs().join();
    assert!(checker.discovery("check_simulation").is_none());
    // the initial state, two after one thread, two after both
    assert_eq!(checker.state_count(), 5);
}
