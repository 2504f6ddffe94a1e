use mcsp::comp::{Comp, ONE};
use mcsp::error::Error;
use mcsp::fixpoint::{entered_mask, pre_mask, safe_mask, state_mask, u_op, w_op};
use mcsp::ltl::mdpa::{accepting_for, aec, components, iterative_remove, select, Product};
use mcsp::mdp::{tolerance, Edge, Mdp, Node};
use mcsp::pctl::{to_indices, ApMap, PctlInfo};
use mcsp::petri::{InputGraphType, Place, State};
use mcsp::utils::{powerset, reverse_map, TimeMeasurements};
use mcsp::value_iteration::{action_value, settle, state_value, sweep_values};

/// s0 -a-> {s0: 1/2, s1: 1/2}, s1 -b-> s1. Nodes: s0 = 0, s1 = 1, a = 2,
/// b = 3.
fn retry() -> Mdp {
    let mut mdp = Mdp::new();
    let s0 = mdp.add_state();
    let s1 = mdp.add_state();
    let a = mdp.add_action("a".to_string());
    let b = mdp.add_action("b".to_string());
    mdp.add_edge(s0, a, ONE).unwrap();
    mdp.add_edge(a, s0, ONE / 2).unwrap();
    mdp.add_edge(a, s1, ONE / 2).unwrap();
    mdp.add_edge(s1, b, ONE).unwrap();
    mdp.add_edge(b, s1, ONE).unwrap();
    mdp
}

#[test]
fn comparison_operators() {
    assert!(Comp::Less.evaluate(1, 2) && !Comp::Less.evaluate(2, 2));
    assert!(Comp::Leq.evaluate(2, 2) && !Comp::Leq.evaluate(3, 2));
    assert!(Comp::Greater.evaluate(3, 2) && !Comp::Greater.evaluate(2, 2));
    assert!(Comp::Geq.evaluate(2, 2) && !Comp::Geq.evaluate(1, 2));
    assert!(Comp::Less.is_upper_bound() && Comp::Leq.is_upper_bound());
    assert!(!Comp::Greater.is_upper_bound() && !Comp::Geq.is_upper_bound());
}

#[test]
fn nodes_and_edges_of_a_process() {
    let mdp = retry();
    assert_eq!(mdp.node_count(), 4);
    assert_eq!(mdp.edge_count(), 5);
    assert!(mdp.is_state(1) && !mdp.is_state(2));
    assert_eq!(mdp.node(0), Node::State(0));
    assert_eq!(mdp.node(3), Node::Action("b".to_string()));
    assert!(mdp.node(0).is_state() && !mdp.node(3).is_state());
    assert_eq!(mdp.edge(2), Edge { source: 2, target: 1, weight: ONE / 2 });
    assert_eq!(mdp.edge(3), Edge { source: 1, target: 3, weight: ONE });
    assert_eq!(mdp.out_weight(2), ONE as u128);
    assert_eq!(mdp.out_weight(0), ONE as u128);
}

#[test]
fn edges_must_fit_the_shape() {
    let mut mdp = retry();
    // Between two states, between two actions, to a node that is none, a
    // weight above one, and a weight below one from a state.
    assert_eq!(mdp.add_edge(0, 1, ONE), Err(Error::GraphInvariantViolation));
    assert_eq!(mdp.add_edge(2, 3, ONE), Err(Error::GraphInvariantViolation));
    assert_eq!(mdp.add_edge(0, 7, ONE), Err(Error::GraphInvariantViolation));
    assert_eq!(mdp.add_edge(2, 0, ONE + 1), Err(Error::GraphInvariantViolation));
    assert_eq!(mdp.add_edge(0, 3, ONE / 2), Err(Error::GraphInvariantViolation));
    assert_eq!(mdp.edge_count(), 5);
    assert_eq!(mdp.add_edge(0, 3, ONE), Ok(5));
    assert_eq!(mdp.edge_count(), 6);
}

#[test]
fn weights_of_an_action_add_up_to_one() {
    assert_eq!(tolerance(0), ONE);
    assert_eq!(tolerance(2), 10_000_000);
    assert_eq!(tolerance(9), 1);
    assert_eq!(tolerance(10), 0);
    assert_eq!(retry().validate(9), Ok(()));
    // Three thirds, rounded to two digits, miss one by a hundredth.
    let mut thirds = Mdp::new();
    let s = thirds.add_state();
    let a = thirds.add_action("a".to_string());
    thirds.add_edge(s, a, ONE).unwrap();
    for _ in 0..3 {
        thirds.add_edge(a, s, 330_000_000).unwrap();
    }
    assert_eq!(thirds.validate(2), Ok(()));
    assert_eq!(thirds.validate(3), Err(Error::GraphInvariantViolation));
    // An action without outcomes.
    let mut empty = Mdp::new();
    let s = empty.add_state();
    let a = empty.add_action("a".to_string());
    empty.add_edge(s, a, ONE).unwrap();
    assert_eq!(empty.validate(2), Err(Error::GraphInvariantViolation));
    assert_eq!(empty.validate(0), Ok(()));
}

#[test]
fn what_a_query_is_asked_of_is_checked() {
    let bad = |r: Result<PctlInfo, Error>| r.err();
    assert_eq!(bad(PctlInfo::new(0, retry(), ApMap::new(), 0, 2)), Some(Error::InvalidMaxError));
    assert_eq!(
        bad(PctlInfo::new(2, retry(), ApMap::new(), 1, 2)),
        Some(Error::GraphInvariantViolation)
    );
    assert_eq!(
        bad(PctlInfo::new(9, retry(), ApMap::new(), 1, 2)),
        Some(Error::GraphInvariantViolation)
    );
    let mut half = Mdp::new();
    let s = half.add_state();
    let a = half.add_action("a".to_string());
    half.add_edge(s, a, ONE).unwrap();
    half.add_edge(a, s, ONE / 2).unwrap();
    assert_eq!(bad(PctlInfo::new(0, half, ApMap::new(), 1, 2)), Some(Error::GraphInvariantViolation));
    let info = PctlInfo::new(0, retry(), ApMap::new(), 5, 2).unwrap();
    assert_eq!((info.initial_marking, info.max_error), (0, 5));
}

#[test]
fn labelling() {
    let mut ap_map = ApMap::new();
    ap_map.insert("p".to_string(), vec![0, 1]);
    ap_map.insert("q".to_string(), vec![1]);
    ap_map.insert("p".to_string(), vec![1, 5]);
    assert!(ap_map.contains_key(&"p".to_string()));
    assert!(!ap_map.contains_key(&"r".to_string()));
    assert_eq!(ap_map.entry_count(), 3);
    // The last entry of a name decides.
    assert_eq!(ap_map.mask(&"p".to_string(), 3), Some(vec![false, true, false]));
    assert_eq!(ap_map.mask(&"r".to_string(), 3), None);
    assert!(ap_map.holds_at(&"q".to_string(), 1) && !ap_map.holds_at(&"p".to_string(), 0));
    assert_eq!(ap_map.names_at(1), vec!["p".to_string(), "q".to_string()]);
    assert_eq!(
        reverse_map(&ap_map, 3),
        vec![vec![], vec!["p".to_string(), "q".to_string()], vec![]]
    );
}

#[test]
fn one_step_values() {
    let mdp = retry();
    let v = vec![200_000_000, ONE, 0, 0];
    // Action a: half of 0.2 and half of 1.
    assert_eq!(action_value(&mdp, &v, 2), 600_000_000);
    assert_eq!(state_value(&mdp, &v, 0, true), 600_000_000);
    assert_eq!(state_value(&mdp, &v, 1, false), ONE);
    // A node without actions has value zero.
    assert_eq!(state_value(&mdp, &v, 2, true), 0);
    // Parts of a billionth are dropped: half of three billionths is one.
    assert_eq!(action_value(&mdp, &vec![3, 0, 0, 0], 2), 1);
}

#[test]
fn sweeps_until_the_values_settle() {
    let mdp = retry();
    let undecided = vec![true, false, false, false];
    let mut v = vec![0, ONE, 0, 0];
    assert_eq!(sweep_values(&mdp, &undecided, true, &mut v), ONE / 2);
    assert_eq!(v, vec![ONE / 2, ONE, 0, 0]);
    assert_eq!(sweep_values(&mdp, &undecided, true, &mut v), ONE / 4);
    assert_eq!(v, vec![750_000_000, ONE, 0, 0]);
    // The changes are 1/2, 1/4, 1/8, 1/16: the fourth is below a tenth.
    let mut w = vec![0, ONE, 0, 0];
    settle(&mdp, &undecided, true, &mut w, ONE / 10);
    assert_eq!(w, vec![937_500_000, ONE, 0, 0]);
    // With the smallest threshold the iteration runs until nothing moves.
    let mut x = vec![0, ONE, 0, 0];
    settle(&mdp, &undecided, false, &mut x, 1);
    assert_eq!(x, vec![999_999_999, ONE, 0, 0]);
}

#[test]
fn sets_of_nodes_and_fixpoints() {
    let mdp = retry();
    assert_eq!(state_mask(&mdp), vec![true, true, false, false]);
    assert_eq!(pre_mask(&mdp, &vec![false, true, false, false]), vec![false, false, true, true]);
    assert_eq!(entered_mask(&mdp), vec![true, true, false, false]);
    // From s1 every two steps stay in {s1}; from s0 they do not.
    assert_eq!(safe_mask(&mdp, &vec![false, true, false, false]), vec![false, true, false, false]);
    assert_eq!(safe_mask(&mdp, &vec![true, true, false, false]), vec![true, true, false, false]);
    let s0 = vec![true, false, false, false];
    let s1 = vec![false, true, false, false];
    let none = vec![false; 4];
    // Nothing stays in {s0} for ever surely; {s1} is never left.
    assert_eq!(w_op(&mdp, &s0, &none), none);
    assert_eq!(w_op(&mdp, &s1, &none), s1);
    // s1 is reached surely only from s1: from s0 the loop may go on.
    assert_eq!(u_op(&mdp, &vec![true, true, false, false], &s1), s1);
    assert_eq!(to_indices(&vec![false, true, true, false]), vec![1, 2]);
}

/// A product with the states 0 and 1 on a cycle, state 2 with a loop, and
/// state 3 that leads into the cycle. Actions: 4 to 7.
fn cycles() -> Product {
    let mut mdp = Mdp::new();
    for _ in 0..4 {
        mdp.add_state();
    }
    let a = [
        mdp.add_action("a0".to_string()),
        mdp.add_action("a1".to_string()),
        mdp.add_action("a2".to_string()),
        mdp.add_action("a3".to_string()),
    ];
    for (s, t) in [(0, 1), (1, 0), (2, 2), (3, 0)] {
        mdp.add_edge(s, a[s], ONE).unwrap();
        mdp.add_edge(a[s], t, ONE).unwrap();
    }
    let pairs = vec![(0, 0), (1, 1), (2, 2), (3, 3), (0, 0), (0, 0), (0, 0), (0, 0)];
    Product { mdp, pairs, initial: 3 }
}

#[test]
fn pruning_and_components() {
    let product = cycles();
    let mut alive = vec![true; 8];
    iterative_remove(&product.mdp, &mut alive);
    // Every state has an action, and every action is entered and has all
    // its outcomes: nothing goes.
    assert_eq!(alive, vec![true; 8]);
    let mut comps = components(&product.mdp, &alive);
    for c in comps.iter_mut() {
        c.sort();
    }
    comps.sort();
    assert_eq!(comps, vec![vec![0, 1, 4, 5], vec![2, 6], vec![3], vec![7]]);
    // Without state 0 the cycle falls apart, and state 3 leads nowhere.
    let mut broken = vec![false, true, true, true, true, true, true, true];
    iterative_remove(&product.mdp, &mut broken);
    assert_eq!(broken, vec![false, false, true, false, false, false, true, false]);
    let picked = select(
        &vec![vec![0, 1], vec![2], vec![3, 4]],
        &vec![false, true, true, false, false],
        &vec![true, true, true, true, false],
    );
    assert_eq!(picked, vec![true, true, false, false, false]);
}

#[test]
fn accepting_end_components() {
    let product = cycles();
    // The cycle of the states 0 and 1 holds automaton state 1.
    assert_eq!(to_indices(&accepting_for(&product, &(vec![], vec![1]))), vec![0, 1]);
    // Automaton state 0 must be avoided: what is left of the cycle holds
    // nothing.
    assert!(to_indices(&accepting_for(&product, &(vec![0], vec![1]))).is_empty());
    assert_eq!(to_indices(&accepting_for(&product, &(vec![0], vec![2]))), vec![2]);
    assert!(to_indices(&accepting_for(&product, &(vec![], vec![3]))).is_empty());
    let acc = vec![(vec![0], vec![1]), (vec![0], vec![2]), (vec![2], vec![0])];
    assert_eq!(to_indices(&aec(&acc, &product)), vec![0, 1, 2]);
    assert!(to_indices(&aec(&vec![], &product)).is_empty());
}

#[test]
fn subsets_of_a_list() {
    let list = ["a", "b", "c"];
    let all = powerset(&list);
    assert_eq!(all.len(), 8);
    assert_eq!(all[0], Vec::<&&str>::new());
    assert_eq!(all[1], vec![&"a"]);
    assert_eq!(all[5], vec![&"a", &"c"]);
    assert_eq!(all[6], vec![&"b", &"c"]);
    assert_eq!(all[7], vec![&"a", &"b", &"c"]);
    assert_eq!(powerset::<u8>(&[]), vec![Vec::<&u8>::new()]);
}

#[test]
fn running_times_in_two_series() {
    let mut times = TimeMeasurements::new();
    times.add_time(0, 12);
    times.add_time(1, 7);
    times.add_time(0, 3);
    assert_eq!(times.vwaa_times, vec![12, 3]);
    assert_eq!(times.gba_times, vec![7]);
}

#[test]
fn markings_in_order() {
    assert!(State::le(&vec![1usize, 0, 2], &vec![1usize, 1, 2]));
    assert!(!State::le(&vec![1usize, 2, 2], &vec![1usize, 1, 2]));
    assert!(State::le(&vec![1usize, 1], &vec![1usize, 1]));
    assert!(matches!(InputGraphType::default(), InputGraphType::Petri));
    let place = Place { state_id: 0, name: "P1".to_string(), token: 1 };
    assert_eq!(place.token, 1);
}
