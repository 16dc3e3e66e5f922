use stateright::checker::{CheckerBuilder, ModelChecking};
use stateright::model::{Model, Property};

/// Counts up from each of its starting values to `max`; the property
/// `reaches_two` asks for a state with count 2, `below_three` that every
/// count stays below 3.
#[derive(Clone, Debug, Hash, PartialEq, Eq)]
struct Counter {
    starts: Vec<u8>,
    max: u8,
}

impl Model for Counter {
    type State = u8;
    type Action = u8;

    fn init_states(&self) -> Vec<u8> {
        self.starts.clone()
    }

    fn actions(&self, state: &u8, actions: &mut Vec<u8>) {
        if *state < self.max {
            actions.push(1);
        }
    }

    fn next_state(&self, last: &u8, step: u8) -> Option<u8> {
        Some(last + step)
    }

    fn properties(&self) -> Vec<Property> {
        vec![Property::sometimes("reaches_two"), Property::always("below_three")]
    }

    fn property_holds(&self, index: usize, state: &u8) -> bool {
        match index {
            0 => *state == 2,
            _ => *state < 3,
        }
    }
}

#[test]
fn sometimes_property_is_discovered_at_the_first_example() {
    let checker = Counter {
        starts: vec![0],
        max: 4,
    }
    .checker()
    .spawn_bfs()
    .join();
    let path = checker.discovery("reaches_two").unwrap().into_vec();
    assert_eq!(path, vec![(0, None), (1, Some(1)), (2, Some(1))]);
    let counterexample = checker.discovery("below_three").unwrap().into_vec();
    assert_eq!(counterexample.len(), 4);
    assert_eq!(counterexample[3].0, 3);
    assert_eq!(checker.state_count(), 5);
}

#[test]
fn properties_without_discovery_report_none() {
    let checker = Counter {
        starts: vec![0],
        max: 1,
    }
    .checker()
    .spawn_bfs()
    .join();
    assert!(checker.discovery("reaches_two").is_none());
    assert!(checker.discovery("below_three").is_none());
    assert!(checker.discovery("unknown").is_none());
    assert_eq!(checker.state_count(), 2);
}

#[test]
fn initial_states_are_visited_first_in_order() {
    let checker = Counter {
        starts: vec![2, 0],
        max: 3,
    }
    .checker()
    .spawn_bfs()
    .join();
    // the initial state 2 is the first example; 2 and 3 are reached again from 0
    let path = checker.discovery("reaches_two").unwrap().into_vec();
    assert_eq!(path, vec![(2, None)]);
    assert_eq!(checker.state_count(), 4);
}

#[test]
fn target_state_count_bounds_the_search() {
    let checker = CheckerBuilder::new(Counter {
        starts: vec![0],
        max: 100,
    })
    .target_state_count(3)
    .spawn_bfs()
    .join();
    assert_eq!(checker.state_count(), 3);
    assert!(checker.discovery("reaches_two").is_some());
    assert!(checker.discovery("below_three").is_none());
}

#[test]
fn the_checker_keeps_the_model() {
    let model = Counter {
        starts: vec![0],
        max: 1,
    };
    let checker = model.clone().checker().spawn_bfs().join();
    assert_eq!(checker.model(), &model);
}

/// Steps around a cycle of `len` states.
#[derive(Clone, Debug, Hash, PartialEq, Eq)]
struct Ring {
    len: u8,
}

impl Model for Ring {
    type State = u8;
    type Action = ();

    fn init_states(&self) -> Vec<u8> {
        vec![0, 0]
    }

    fn actions(&self, _: &u8, actions: &mut Vec<()>) {
        actions.push(());
    }

    fn next_state(&self, last: &u8, _: ()) -> Option<u8> {
        Some((last + 1) % self.len)
    }
}

#[test]
fn states_seen_before_are_not_visited_again() {
    let checker = Ring { len: 3 }.checker().spawn_bfs().join();
    assert_eq!(checker.state_count(), 3);
    assert!(checker.discovery("anything").is_none());
}
