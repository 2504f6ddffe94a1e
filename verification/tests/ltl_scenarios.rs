use mcsp::comp::{Comp, ONE};
use mcsp::error::Error;
use mcsp::logic::{Formula, LtlQuery, Outcome};
use mcsp::ltl::formula::{False, Next, PhiOp, Release, True, Until, AP};
use mcsp::mdp::Mdp;
use mcsp::pctl::{ApMap, PctlInfo};

fn always(phi: PhiOp) -> PhiOp {
    Release::create(False::create(), phi)
}

fn eventually(phi: PhiOp) -> PhiOp {
    Until::create(True::create(), phi)
}

fn prop(name: &str) -> PhiOp {
    AP::create(name.to_string())
}

#[test]
fn always_on_a_one_state_loop() {
    let mut mdp = Mdp::new();
    let s0 = mdp.add_state();
    let a = mdp.add_action("a".to_string());
    mdp.add_edge(s0, a, ONE).unwrap();
    mdp.add_edge(a, s0, ONE).unwrap();
    let mut ap_map = ApMap::new();
    ap_map.insert("p".to_string(), vec![s0]);
    let info = PctlInfo::new(s0, mdp, ap_map, 10_000_000, 2).unwrap();
    let query = LtlQuery { phi: always(prop("p")), comp: Comp::Geq, probability: ONE };
    let out = query.evaluate(&info).unwrap();
    assert!(out.initial);
    assert_eq!(out.states, vec![0]);
}

#[test]
fn eventually_what_is_never_reached() {
    let mut mdp = Mdp::new();
    let s0 = mdp.add_state();
    let s1 = mdp.add_state();
    let a = mdp.add_action("a".to_string());
    mdp.add_edge(s0, a, ONE).unwrap();
    mdp.add_edge(a, s0, ONE).unwrap();
    let mut ap_map = ApMap::new();
    ap_map.insert("p".to_string(), vec![s1]);
    let info = PctlInfo::new(s0, mdp, ap_map, 10_000_000, 2).unwrap();
    let query = LtlQuery { phi: eventually(prop("p")), comp: Comp::Leq, probability: 0 };
    let out = query.evaluate(&info).unwrap();
    assert!(out.initial);
    let never = LtlQuery { phi: eventually(prop("p")), comp: Comp::Greater, probability: 0 };
    assert_eq!(never.evaluate(&info), Ok(Outcome { states: vec![], initial: false }));
}

/// `s0` has one action with the outcomes `s1` and `s2`, one half each;
/// `s1` and `s2` loop; `p` holds at `s1`, `q` at `s2`.
fn coin() -> PctlInfo {
    let mut mdp = Mdp::new();
    let s0 = mdp.add_state();
    let s1 = mdp.add_state();
    let s2 = mdp.add_state();
    let a = mdp.add_action("a".to_string());
    let l1 = mdp.add_action("l1".to_string());
    let l2 = mdp.add_action("l2".to_string());
    mdp.add_edge(s0, a, ONE).unwrap();
    mdp.add_edge(a, s1, ONE / 2).unwrap();
    mdp.add_edge(a, s2, ONE / 2).unwrap();
    mdp.add_edge(s1, l1, ONE).unwrap();
    mdp.add_edge(l1, s1, ONE).unwrap();
    mdp.add_edge(s2, l2, ONE).unwrap();
    mdp.add_edge(l2, s2, ONE).unwrap();
    let mut ap_map = ApMap::new();
    ap_map.insert("p".to_string(), vec![s1]);
    ap_map.insert("q".to_string(), vec![s2]);
    PctlInfo::new(s0, mdp, ap_map, 1_000, 2).unwrap()
}

#[test]
fn until_with_two_outcomes() {
    let info = coin();
    let query =
        LtlQuery { phi: eventually(prop("p")), comp: Comp::Geq, probability: ONE / 2 };
    let out = query.evaluate(&info).unwrap();
    assert!(out.initial);
    assert_eq!(out.states, vec![0, 1]);
    let more = LtlQuery { phi: eventually(prop("p")), comp: Comp::Greater, probability: ONE / 2 };
    let out = more.evaluate(&info).unwrap();
    assert!(!out.initial);
    assert_eq!(out.states, vec![1]);
}

#[test]
fn next_with_two_outcomes() {
    let info = coin();
    let at_least = Formula::Ltl(LtlQuery {
        phi: Next::create(prop("p")),
        comp: Comp::Geq,
        probability: ONE / 2,
    });
    assert!(at_least.evaluate(&info).unwrap().initial);
    let more = Formula::Ltl(LtlQuery {
        phi: Next::create(prop("p")),
        comp: Comp::Greater,
        probability: ONE / 2,
    });
    assert!(!more.evaluate(&info).unwrap().initial);
}

#[test]
fn ltl_bound_above_one_is_reported() {
    let info = coin();
    let query = LtlQuery { phi: prop("p"), comp: Comp::Geq, probability: ONE + 1 };
    assert_eq!(query.evaluate(&info), Err(Error::InvalidProbabilityBound));
}
