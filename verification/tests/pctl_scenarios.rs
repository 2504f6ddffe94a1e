use mcsp::comp::{Comp, ONE};
use mcsp::error::Error;
use mcsp::mdp::Mdp;
use mcsp::pctl::{
    AndPhi, ApMap, Next, NotPhi, PathPhi, PctlFormula, PctlInfo, Prob, StatePhi, True, Until, AP,
};

fn ap(name: &str) -> StatePhi {
    StatePhi::AP(AP { value: name.to_string() })
}

fn tt() -> StatePhi {
    StatePhi::True(True)
}

fn prob_until(prev: StatePhi, until: StatePhi, comp: Comp, probability: u64) -> StatePhi {
    StatePhi::Prob(Prob {
        phi: Box::new(PathPhi::Until(Until { prev: Box::new(prev), until: Box::new(until) })),
        probability,
        comp,
    })
}

fn prob_next(phi: StatePhi, comp: Comp, probability: u64) -> StatePhi {
    StatePhi::Prob(Prob {
        phi: Box::new(PathPhi::Next(Next { phi: Box::new(phi) })),
        probability,
        comp,
    })
}

/// One state with a loop through action `a`.
fn one_state_loop() -> PctlInfo {
    let mut mdp = Mdp::new();
    let s0 = mdp.add_state();
    let a = mdp.add_action("a".to_string());
    mdp.add_edge(s0, a, ONE).unwrap();
    mdp.add_edge(a, s0, ONE).unwrap();
    let mut ap_map = ApMap::new();
    ap_map.insert("p".to_string(), vec![s0]);
    PctlInfo::new(s0, mdp, ap_map, 10_000_000, 2).unwrap()
}

/// `s0` has the actions `a_good` to `s1` and `a_bad` to `s2`; `s1` and `s2`
/// loop; `p` holds at `s1`. Nodes: s0 = 0, s1 = 1, s2 = 2.
fn choice() -> PctlInfo {
    let mut mdp = Mdp::new();
    let s0 = mdp.add_state();
    let s1 = mdp.add_state();
    let s2 = mdp.add_state();
    let good = mdp.add_action("a_good".to_string());
    let bad = mdp.add_action("a_bad".to_string());
    let l1 = mdp.add_action("l1".to_string());
    let l2 = mdp.add_action("l2".to_string());
    mdp.add_edge(s0, good, ONE).unwrap();
    mdp.add_edge(good, s1, ONE).unwrap();
    mdp.add_edge(s0, bad, ONE).unwrap();
    mdp.add_edge(bad, s2, ONE).unwrap();
    mdp.add_edge(s1, l1, ONE).unwrap();
    mdp.add_edge(l1, s1, ONE).unwrap();
    mdp.add_edge(s2, l2, ONE).unwrap();
    mdp.add_edge(l2, s2, ONE).unwrap();
    let mut ap_map = ApMap::new();
    ap_map.insert("p".to_string(), vec![s1]);
    PctlInfo::new(s0, mdp, ap_map, 10_000_000, 2).unwrap()
}

#[test]
fn atomic_proposition_on_one_state() {
    let info = one_state_loop();
    let formula = PctlFormula(ap("p"));
    assert_eq!(formula.evaluate(&info), Ok(vec![0]));
    assert_eq!(formula.holds_initially(&info), Ok(true));
}

#[test]
fn until_on_a_deterministic_chain() {
    let mut mdp = Mdp::new();
    let s0 = mdp.add_state();
    let s1 = mdp.add_state();
    let a0 = mdp.add_action("a0".to_string());
    let a1 = mdp.add_action("a1".to_string());
    mdp.add_edge(s0, a0, ONE).unwrap();
    mdp.add_edge(a0, s1, ONE).unwrap();
    mdp.add_edge(s1, a1, ONE).unwrap();
    mdp.add_edge(a1, s1, ONE).unwrap();
    let mut ap_map = ApMap::new();
    ap_map.insert("p".to_string(), vec![s1]);
    let info = PctlInfo::new(s0, mdp, ap_map, 10_000_000, 2).unwrap();
    let formula = PctlFormula(prob_until(tt(), ap("p"), Comp::Geq, ONE));
    assert_eq!(formula.evaluate(&info), Ok(vec![0, 1]));
    assert_eq!(formula.holds_initially(&info), Ok(true));
}

#[test]
fn until_with_a_choice_of_actions() {
    let info = choice();
    let until = Until { prev: Box::new(tt()), until: Box::new(ap("p")) };
    // The largest probability over the choices is one at s0, the smallest zero.
    let (mut max, s_1, s_q) = until.s1_sq(&info).unwrap();
    assert_eq!(s_1, vec![false, true, false, false, false, false, false]);
    assert_eq!(s_q, vec![true, false, false, false, false, false, false]);
    let mut min = max.clone();
    Until::iterate_prob(&info, &s_q, &mut max, &Comp::Leq);
    Until::iterate_prob(&info, &s_q, &mut min, &Comp::Geq);
    assert_eq!(max[0], ONE);
    assert_eq!(min[0], 0);
    assert_eq!(max[1], ONE);
    assert_eq!(max[2], 0);
    // With the largest probability, s0 and s1 reach p with at least one half.
    let upper: Vec<usize> = (0..3).filter(|s| max[*s] >= ONE / 2).collect();
    assert_eq!(upper, vec![0, 1]);
    // A lower bound is held against the smallest probability.
    let at_least = PctlFormula(prob_until(tt(), ap("p"), Comp::Geq, ONE / 2));
    assert_eq!(at_least.evaluate(&info), Ok(vec![1]));
    // An upper bound is held against the largest.
    let at_most = PctlFormula(prob_until(tt(), ap("p"), Comp::Leq, ONE / 2));
    assert_eq!(at_most.evaluate(&info), Ok(vec![2]));
}

#[test]
fn trivial_bounds_give_all_states() {
    let info = choice();
    let unknown = || ap("nowhere");
    let lo = PctlFormula(prob_until(tt(), unknown(), Comp::Geq, 0));
    let hi = PctlFormula(prob_next(unknown(), Comp::Leq, ONE));
    assert_eq!(lo.evaluate(&info), Ok(vec![0, 1, 2]));
    assert_eq!(hi.evaluate(&info), Ok(vec![0, 1, 2]));
}

#[test]
fn unknown_proposition_is_reported() {
    let info = choice();
    let formula = PctlFormula(StatePhi::And(AndPhi {
        left_phi: Box::new(ap("p")),
        right_phi: Box::new(StatePhi::Not(NotPhi { phi: Box::new(ap("q")) })),
    }));
    assert_eq!(formula.evaluate(&info), Err(Error::UnknownProposition("q".to_string())));
}

#[test]
fn bound_above_one_is_reported() {
    let info = choice();
    let formula = PctlFormula(prob_next(tt(), Comp::Geq, ONE + 1));
    assert_eq!(formula.evaluate(&info), Err(Error::InvalidProbabilityBound));
}

#[test]
fn next_takes_the_best_action() {
    let info = choice();
    // From s0 the next state is s1 under a_good and s2 under a_bad.
    let some = PctlFormula(prob_next(ap("p"), Comp::Less, ONE));
    assert_eq!(some.evaluate(&info), Ok(vec![2]));
    let all = PctlFormula(prob_next(ap("p"), Comp::Greater, 0));
    assert_eq!(all.evaluate(&info), Ok(vec![1]));
}
