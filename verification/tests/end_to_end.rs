use mcsp::comp::ONE;
use mcsp::error::Error;
use mcsp::logic::{parse_formula, LogicType, Outcome};
use mcsp::mdp::Mdp;
use mcsp::pctl::{ApMap, PctlInfo};

fn ask(logic: LogicType, text: &str, info: &PctlInfo) -> Result<Outcome, Error> {
    parse_formula(logic, text)?.evaluate(info)
}

fn chain() -> PctlInfo {
    let mut mdp = Mdp::new();
    let s0 = mdp.add_state();
    let s1 = mdp.add_state();
    let a0 = mdp.add_action("a0".to_string());
    let a1 = mdp.add_action("a1".to_string());
    mdp.add_edge(s0, a0, ONE).unwrap();
    mdp.add_edge(a0, s1, ONE).unwrap();
    mdp.add_edge(s1, a1, ONE).unwrap();
    mdp.add_edge(a1, s1, ONE).unwrap();
    let mut ap_map = ApMap::new();
    ap_map.insert("p".to_string(), vec![s1]);
    PctlInfo::new(s0, mdp, ap_map, 10_000_000, 2).unwrap()
}

#[test]
fn pctl_query_from_text() {
    let info = chain();
    let out = ask(LogicType::Pctl, "PHI = P((true) U (p), >= 1.0)", &info).unwrap();
    assert_eq!(out, Outcome { states: vec![0, 1], initial: true });
    let out = ask(LogicType::Pctl, "PHI = (p) & (!(P(X(p), < 1)))", &info).unwrap();
    assert_eq!(out, Outcome { states: vec![1], initial: false });
}

#[test]
fn ltl_query_from_text() {
    let info = chain();
    let out = ask(LogicType::LTL, "PHI = P(F(p), >= 1.0)", &info).unwrap();
    assert!(out.initial);
    let out = ask(LogicType::LTL, "PHI = P(G(p), > 0)", &info).unwrap();
    assert!(!out.initial);
    let out = ask(LogicType::LTL, "PHI = P(X(p), >= 1.0)", &info).unwrap();
    assert!(out.initial);
    let out = ask(LogicType::LTL, "PHI = P(X(X(p)), >= 1.0)", &info).unwrap();
    assert!(out.initial);
}

#[test]
fn errors_are_handed_on() {
    let info = chain();
    assert_eq!(ask(LogicType::Pctl, "PHI = q", &info), Err(Error::UnknownProposition("q".to_string())));
    assert_eq!(ask(LogicType::Pctl, "PHI q", &info), Err(Error::Parse));
    assert_eq!(ask(LogicType::LTL, "PHI = F(p)", &info), Err(Error::Parse));
}
