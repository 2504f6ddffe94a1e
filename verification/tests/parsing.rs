use mcsp::comp::{Comp, ONE};
use mcsp::error::Error;
use mcsp::logic::{find_formula, parse_formula, Formula, LogicImpl, LogicType, LtlImpl, LtlQuery};
use mcsp::ltl::formula::{False, PhiOp, Release, True as LtlTrue, Until as LtlUntil, AP as LtlAP};
use mcsp::pctl::{
    AndPhi, Next, NotPhi, PathPhi, PctlFormula, PctlImpl, Prob, StatePhi, True, Until, AP,
};
use mcsp::render::number_string;
use mcsp::syntax::{read_query, Syntax};

fn ap(name: &str) -> StatePhi {
    StatePhi::AP(AP { value: name.to_string() })
}

fn not(phi: StatePhi) -> StatePhi {
    StatePhi::Not(NotPhi { phi: Box::new(phi) })
}

fn until(prev: StatePhi, until: StatePhi, comp: Comp, probability: u64) -> StatePhi {
    StatePhi::Prob(Prob {
        phi: Box::new(PathPhi::Until(Until { prev: Box::new(prev), until: Box::new(until) })),
        probability,
        comp,
    })
}

#[test]
fn reads_a_proposition() {
    assert_eq!(PctlImpl::read("PHI = p"), Ok(PctlFormula(ap("p"))));
}

#[test]
fn reads_an_until_with_its_bound() {
    let expected = PctlFormula(until(StatePhi::True(True), ap("p"), Comp::Geq, ONE));
    assert_eq!(PctlImpl::read("PHI = P((true) U (p), >= 1.0)"), Ok(expected));
}

#[test]
fn reads_the_query_behind_other_text() {
    let text = "P = {P1, P2}\nM = (1, 0)\nPHI = P((phione) U (phitwo), >= 0.5)";
    let expected = PctlFormula(until(ap("phione"), ap("phitwo"), Comp::Geq, ONE / 2));
    assert_eq!(PctlImpl::read(text), Ok(expected));
}

#[test]
fn finds_the_text_from_the_marker_on() {
    assert_eq!(find_formula("net PHI = p"), Some("PHI = p".to_string()));
    assert_eq!(find_formula("net = p"), None);
    assert_eq!(find_formula("PHI = p PHI = q"), None);
}

#[test]
fn rewrites_false_or_eventually_and_always() {
    assert_eq!(PctlImpl::read("PHI = false"), Ok(PctlFormula(not(StatePhi::True(True)))));
    let or = PctlFormula(not(StatePhi::And(AndPhi {
        left_phi: Box::new(not(ap("p"))),
        right_phi: Box::new(not(ap("q"))),
    })));
    assert_eq!(PctlImpl::read("PHI = (p) | (q)"), Ok(or));
    let ev = PctlFormula(until(StatePhi::True(True), ap("p"), Comp::Less, 250_000_000));
    assert_eq!(PctlImpl::read("PHI = P(F(p), < 0.25)"), Ok(ev));
    // At least 0.25 always p: at most 0.75 eventually not p.
    let alw = PctlFormula(until(StatePhi::True(True), not(ap("p")), Comp::Leq, 750_000_000));
    assert_eq!(PctlImpl::read("PHI = P(G(p), >= 0.25)"), Ok(alw));
    let next = PctlFormula(StatePhi::Prob(Prob {
        phi: Box::new(PathPhi::Next(Next { phi: Box::new(ap("p")) })),
        probability: ONE,
        comp: Comp::Greater,
    }));
    assert_eq!(PctlImpl::read("PHI = P(X(p), > 1)"), Ok(next));
}

#[test]
fn rejects_malformed_texts() {
    // No marker, and the marker twice.
    assert_eq!(PctlImpl::read("p"), Err(Error::Parse));
    assert_eq!(PctlImpl::read("PHI = p PHI"), Err(Error::Parse));
    // A bad comparison operator.
    assert_eq!(PctlImpl::read("PHI = P(X(p), => 0.5)"), Err(Error::Parse));
    assert_eq!(PctlImpl::read("PHI = P(X(p), = 0.5)"), Err(Error::Parse));
    // A probability that cannot be read, and one outside the unit interval.
    assert_eq!(PctlImpl::read("PHI = P(X(p), >= half)"), Err(Error::Parse));
    assert_eq!(PctlImpl::read("PHI = P(X(p), >= 0.)"), Err(Error::Parse));
    assert_eq!(PctlImpl::read("PHI = P(X(p), >= 1.5)"), Err(Error::Parse));
    assert_eq!(PctlImpl::read("PHI = P(X(p), >= 2)"), Err(Error::Parse));
    // Text behind the formula, a missing bracket, a temporal operator
    // outside a bound, and release in PCTL.
    assert_eq!(PctlImpl::read("PHI = p q"), Err(Error::Parse));
    assert_eq!(PctlImpl::read("PHI = !(p"), Err(Error::Parse));
    assert_eq!(PctlImpl::read("PHI = X(p)"), Err(Error::Parse));
    assert_eq!(PctlImpl::read("PHI = P((p) R (q), >= 0.5)"), Err(Error::Parse));
    // An LTL query is a bound on a formula without bounds.
    assert_eq!(LtlImpl::read("PHI = G(p)"), Err(Error::Parse));
    assert_eq!(LtlImpl::read("PHI = P(P(X(p), > 0.1), >= 0.5)"), Err(Error::Parse));
}

#[test]
fn reads_ltl_in_negation_normal_form() {
    let p = || LtlAP::create("p".to_string());
    let q = || LtlAP::create("q".to_string());
    let always = LtlQuery {
        phi: Release::create(False::create(), p()),
        comp: Comp::Geq,
        probability: ONE,
    };
    assert_eq!(LtlImpl::read("PHI = P(G(p), >= 1.0)"), Ok(always));
    let eventually =
        LtlQuery { phi: LtlUntil::create(LtlTrue::create(), p()), comp: Comp::Leq, probability: 0 };
    assert_eq!(LtlImpl::read("PHI = P(F(p), <= 0.0)"), Ok(eventually));
    // The negation of an until is the release of the negations.
    let not_until = LtlQuery {
        phi: Release::create(p().negate(), q().negate()),
        comp: Comp::Less,
        probability: ONE / 2,
    };
    assert_eq!(LtlImpl::read("PHI = P(!((p) U (q)), < 0.5)"), Ok(not_until));
    // Conjunctions and disjunctions with constants and with twice the same.
    let simple = |text: &str| LtlImpl::read(text).unwrap().phi;
    assert_eq!(simple("PHI = P((true) & (p), < 1)"), p());
    assert_eq!(simple("PHI = P((false) & (p), < 1)"), False::create());
    assert_eq!(simple("PHI = P((true) | (p), < 1)"), LtlTrue::create());
    assert_eq!(simple("PHI = P((false) | (p), < 1)"), p());
    assert_eq!(simple("PHI = P((p) & (p), < 1)"), p());
}

#[test]
fn reads_by_the_kind_of_logic() {
    let text = "PHI = P((true) U (p), >= 0.5)";
    let pctl = parse_formula(LogicType::Pctl, text).unwrap();
    assert!(matches!(pctl, Formula::Pctl(_)));
    let ltl = parse_formula(LogicType::LTL, text).unwrap();
    assert!(matches!(ltl, Formula::Ltl(_)));
    assert_eq!(PctlImpl.parse(text), Ok(pctl));
    assert_eq!(LtlImpl.parse(text), Ok(ltl));
}

#[test]
fn blanks_are_free_between_the_parts() {
    let dense = PctlImpl::read("PHI=P((true)U(p),>=0.5)");
    let wide = PctlImpl::read("  PHI  =  P ( ( true ) U ( p ) ,  >=  0.5 )  ");
    assert!(dense.is_ok());
    assert_eq!(dense, wide);
}

#[test]
fn writes_numbers_with_nine_places() {
    assert_eq!(number_string(ONE / 2), "0.500000000");
    assert_eq!(number_string(ONE), "1.000000000");
    assert_eq!(number_string(0), "0.000000000");
    assert_eq!(number_string(123_456_789), "0.123456789");
}

#[test]
fn reading_what_was_written_gives_the_same() {
    let texts = [
        "PHI = p",
        "PHI = P((true) U (p), >= 1.0)",
        "PHI = P(G((p) | (q)), < 0.125)",
        "PHI = !((p) & (P(X(false), > 0.3)))",
        "PHI = P(F(P((a) U (b_2), <= 0.75)), >= 0.000000001)",
    ];
    for text in texts {
        let first = PctlImpl::read(text).unwrap();
        let again = PctlImpl::read(&first.fmt()).unwrap();
        assert_eq!(again, first);
    }
    let texts = [
        "PHI = P(G(p), >= 1.0)",
        "PHI = P((p) U ((q) R (X(r))), < 0.5)",
        "PHI = P(!((F(p)) & ((q) | (!(r)))), > 0.25)",
    ];
    for text in texts {
        let first = LtlImpl::read(text).unwrap();
        let again = LtlImpl::read(&first.fmt()).unwrap();
        assert_eq!(again, first);
    }
}

#[test]
fn writes_the_syntax_that_is_read() {
    let formula = PctlImpl::read("PHI=P((true)U(p),>=0.5)").unwrap();
    assert_eq!(formula.fmt(), "PHI = P((true) U (p), >= 0.500000000)");
    let query = LtlImpl::read("PHI=P(G(!(p)),<1)").unwrap();
    assert_eq!(query.fmt(), "PHI = P((false) R (!(p)), < 1.000000000)");
}

#[test]
fn reads_a_syntax_tree() {
    let tree = read_query("PHI = (p) R (X(q))").unwrap();
    let expected = Syntax::Release(
        Box::new(Syntax::Ap("p".to_string())),
        Box::new(Syntax::Next(Box::new(Syntax::Ap("q".to_string())))),
    );
    assert_eq!(tree, expected);
    assert_eq!(read_query("PHI = (p) R X(q)"), None);
    // Digits beyond the ninth place count for nothing.
    let bound = read_query("PHI = P(p, <= 0.1234567891)").unwrap();
    assert_eq!(
        bound,
        Syntax::Prob(Box::new(Syntax::Ap("p".to_string())), Comp::Leq, 123_456_789)
    );
}

#[test]
fn an_unreduced_conjunction_is_read_back_reduced() {
    // The negation of a disjunction of twice the same is a conjunction of
    // twice the same, which is written down and read back as one.
    let p = LtlAP::create("p".to_string());
    let first = LtlImpl::read("PHI = P(!((p) | (p)), < 1)").unwrap();
    assert!(matches!(first.phi, PhiOp::And(_)));
    let again = LtlImpl::read(&first.fmt()).unwrap();
    assert_eq!(again.phi, p.negate());
}

#[test]
fn a_bound_above_one_on_a_tree_is_refused() {
    let next = Syntax::Next(Box::new(Syntax::True));
    let above = Syntax::Prob(Box::new(next), Comp::Geq, ONE + ONE / 2);
    assert_eq!(PctlImpl::parse_state(&above), Err(Error::Parse));
    let eventually = Syntax::Prob(Box::new(Syntax::Ev(Box::new(Syntax::True))), Comp::Geq, ONE + 1);
    assert_eq!(PctlImpl::parse_state(&eventually), Err(Error::Parse));
    let always = Syntax::Prob(Box::new(Syntax::Alw(Box::new(Syntax::True))), Comp::Leq, ONE + 1);
    assert_eq!(PctlImpl::parse_state(&always), Err(Error::Parse));
    let until = Syntax::Prob(
        Box::new(Syntax::Until(Box::new(Syntax::True), Box::new(Syntax::Ap("p".to_string())))),
        Comp::Less,
        u64::MAX,
    );
    assert_eq!(PctlImpl::parse_state(&until), Err(Error::Parse));
    let at_one = Syntax::Prob(Box::new(Syntax::Next(Box::new(Syntax::True))), Comp::Leq, ONE);
    assert!(PctlImpl::parse_state(&at_one).is_ok());
}
