//! Queries: a formula of one of the two logics, asked of a decision
//! process.

use crate::comp::{Comp, ONE};
use crate::error::Error;
use crate::fixpoint::set_of;
use crate::ltl::ba::{to_ba, BA};
use crate::ltl::formula::{
    conj, disj, negation, And, False, Ltl, Next as LtlNext, Or, PhiOp, Release, True as LtlTrue,
    Until as LtlUntil, AP as LtlAP,
};
use crate::ltl::gba::{to_gba, GBA};
use crate::ltl::mdpa::{cross_mdp, in_aec, Product};
use crate::ltl::safra::{determinize, DRA};
use crate::ltl::vwaa::{to_vwaa, VWAA};
use crate::mdp::MdpView;
use crate::pctl::{
    nodes_of, reports, state_of, to_indices, trivial, until_values, ApMap, PathPhi, PctlFormula,
    PctlImpl, PctlInfo, Prob, StatePhi, True, Until, AP,
};
use crate::syntax::{query_of, read_query, Syntax, Tree};
use vstd::prelude::*;
use vstd::string::{StrSliceExecFns, StringExecFns};

verus! {

/// The logic in which a query is written.
#[derive(Clone, Copy, Debug, PartialEq, Eq, Default)]
pub enum LogicType {
    #[default]
    Pctl,
    LTL,
}

/// An LTL query: a bound on the probability of the paths that satisfy the
/// formula; `probability` is in parts per billion.
#[derive(Debug, PartialEq, Eq)]
pub struct LtlQuery {
    pub phi: PhiOp,
    pub comp: Comp,
    pub probability: u64,
}

/// A query of one of the two logics.
#[derive(Debug, PartialEq, Eq)]
pub enum Formula {
    Pctl(PctlFormula),
    Ltl(LtlQuery),
}

/// The answer to a query: the states of the process that satisfy it, in
/// increasing order, and whether the initial state is one of them.
#[derive(Debug, PartialEq, Eq)]
pub struct Outcome {
    pub states: Vec<usize>,
    pub initial: bool,
}

/// The nodes of the product at which the end components are reached with a
/// probability that meets the bound.
pub open spec fn meets(g: MdpView, goal: Set<int>, eps: int, comp: Comp, q: u64, i: int) -> bool {
    g.is_state(i) && (trivial(comp, q) || comp.holds(
        until_values(g, g.state_set(), goal.intersect(g.state_set()), comp.upper(), eps)[i] as int,
        q as int,
    ))
}

/// Some node of the product that meets the bound stands for state `s` of
/// the process.
pub open spec fn met_at(
    g: MdpView,
    pairs: Seq<(usize, usize)>,
    goal: Set<int>,
    eps: int,
    comp: Comp,
    q: u64,
    s: int,
) -> bool {
    exists|i: int| 0 <= i < pairs.len() && (#[trigger] pairs[i]).0 == s && meets(g, goal, eps, comp, q, i)
}

/// Answers an LTL query from the product of the process with the
/// automaton of the formula: the query holds at a node of the product where
/// the probability of reaching an accepting end component meets the bound,
/// and at a state of the process where it holds at a node that stands for
/// the state. An upper bound is held against the largest probability over
/// the choices of actions, a lower bound against the smallest.
pub fn reach_components(
    product: Product,
    accepting: &Vec<bool>,
    comp: Comp,
    probability: u64,
    max_error: u64,
    nodes: usize,
) -> (res: Result<Outcome, Error>)
    requires
        forall|i: int|
            0 <= i < product.pairs@.len() && product.mdp@.states[i] ==> (#[trigger] product.pairs@[i]).0
                < nodes,
        product.mdp.wf(),
        product.pairs@.len() == product.mdp@.states.len(),
        accepting@.len() == product.mdp@.states.len(),
        product.mdp@.is_state(product.initial as int),
        max_error > 0,
    ensures
        probability > ONE ==> res == Err::<Outcome, Error>(Error::InvalidProbabilityBound),
        probability <= ONE ==> res is Ok && ({
            let g = product.mdp@;
            let goal = set_of(accepting@);
            let out = res.unwrap();
            &&& out.initial == meets(g, goal, max_error as int, comp, probability, product.initial as int)
            &&& forall|k: int, l: int| 0 <= k < l < out.states@.len() ==> out.states@[k] < out.states@[l]
            &&& forall|s: int|
                nodes_of(out.states@).contains(s) <==> met_at(
                    g,
                    product.pairs@,
                    goal,
                    max_error as int,
                    comp,
                    probability,
                    s,
                )
        }),
{
    if probability > ONE {
        return Err(Error::InvalidProbabilityBound);
    }
    let ghost g = product.mdp@;
    let ghost goal = set_of(accepting@);
    let n = accepting.len();
    let name = String::from_str("aec");
    let mut ap_map = ApMap::new();
    let list = to_indices(accepting);
    ap_map.insert(name.clone(), list);
    let pairs = product.pairs;
    let info = PctlInfo {
        initial_marking: product.initial,
        reach_graph: product.mdp,
        ap_map,
        max_error,
    };
    let formula = StatePhi::Prob(
        Prob {
            phi: Box::new(
                PathPhi::Until(
                    Until {
                        prev: Box::new(StatePhi::True(True)),
                        until: Box::new(StatePhi::AP(AP { value: name })),
                    },
                ),
            ),
            probability,
            comp,
        },
    );
    let ghost ap = info.ap_map@;
    let ghost eps = max_error as int;
    proof {
        assert(ap.dom().contains(name@));
        assert(formula.failure(ap) is None) by {
            let path = PathPhi::Until(
                Until {
                    prev: Box::new(StatePhi::True(True)),
                    until: Box::new(StatePhi::AP(AP { value: name })),
                },
            );
            assert(StatePhi::True(True).failure(ap) is None);
            assert(StatePhi::AP(AP { value: name }).failure(ap) is None);
            assert(path.failure(ap) is None);
            assert(path.failure_under(ap, comp, probability) is None);
        }
    }
    let mask = match formula.evaluate_inner(&info) {
        Ok(m) => m,
        Err(e) => {
            return Err(e);
        },
    };
    proof {
        let path = PathPhi::Until(
            Until {
                prev: Box::new(StatePhi::True(True)),
                until: Box::new(StatePhi::AP(AP { value: name })),
            },
        );
        let a = StatePhi::True(True).sat_set(g, ap, eps);
        let b = StatePhi::AP(AP { value: name }).sat_set(g, ap, eps);
        assert(a =~= g.state_set());
        assert forall|i: int| b.contains(i) <==> goal.intersect(g.state_set()).contains(i) by {
            assert(ap[name@] == nodes_of(list@));
            if goal.contains(i) {
                assert(nodes_of(list@).contains(i));
            }
            if nodes_of(list@).contains(i) {
                let k = choose|k: int| 0 <= k < list@.len() && #[trigger] list@[k] == i;
                assert(accepting@[list@[k] as int]);
            }
        }
        assert(b =~= goal.intersect(g.state_set()));
        assert(path.values(g, ap, eps, comp.upper()) == until_values(g, a, b, comp.upper(), eps));
        assert forall|i: int| 0 <= i < n implies mask@[i] == meets(g, goal, eps, comp, probability, i) by {
            assert(mask@[i] == formula.sat(g, ap, eps, i));
            assert(formula.sat(g, ap, eps, i) == path.sat_under(g, ap, eps, comp, probability, i));
        }
    }
    // The states of the process for which a node of the product holds.
    let limit = nodes;
    let mut flags: Vec<bool> = Vec::new();
    let mut s: usize = 0;
    while s < limit
        invariant
            s <= limit,
            flags@.len() == s,
            forall|j: int| 0 <= j < s ==> !(#[trigger] flags@[j]),
        decreases limit - s,
    {
        flags.push(false);
        s = s + 1;
    }
    let mut i: usize = 0;
    while i < n
        invariant
            i <= n,
            n == pairs@.len(),
            n == mask@.len(),
            flags@.len() == limit,
            forall|s: int|
                0 <= s < limit ==> (#[trigger] flags@[s] <==> exists|j: int|
                    0 <= j < i && (#[trigger] pairs@[j]).0 == s && mask@[j]),
        decreases n - i,
    {
        if mask[i] && pairs[i].0 < limit {
            flags.set(pairs[i].0, true);
        }
        i = i + 1;
    }
    let states = to_indices(&flags);
    proof {
        assert forall|s: int| nodes_of(states@).contains(s) <==> met_at(
            g,
            pairs@,
            goal,
            eps,
            comp,
            probability,
            s,
        ) by {
            if nodes_of(states@).contains(s) {
                let k = choose|k: int| 0 <= k < states@.len() && #[trigger] states@[k] == s;
                assert(flags@[states@[k] as int]);
                let j = choose|j: int| 0 <= j < n && (#[trigger] pairs@[j]).0 == s && mask@[j];
                assert(meets(g, goal, eps, comp, probability, j));
            }
            if met_at(g, pairs@, goal, eps, comp, probability, s) {
                let j = choose|j: int|
                    0 <= j < pairs@.len() && (#[trigger] pairs@[j]).0 == s && meets(
                        g,
                        goal,
                        eps,
                        comp,
                        probability,
                        j,
                    );
                assert(mask@[j]);
                assert(g.states[j]);
                assert(pairs@[j].0 < limit);
                assert(flags@[s]);
            }
        }
    }
    Ok(Outcome { states, initial: mask[info.initial_marking] })
}

/// What is built on the way to the answer of an LTL query.
pub struct Pipeline {
    pub vwaa: VWAA,
    pub gba: GBA,
    pub ba: BA,
    pub dra: DRA,
    pub product: Product,
    /// For each node of the product, whether it lies in an accepting end
    /// component.
    pub accepting: Seq<bool>,
}

impl LtlQuery {
    /// The answer is reached by way of `d`: the automata are those of the
    /// formula, each built from the one before it; the product is that of
    /// the process with the last of them; its accepting end components are
    /// marked; and the answer holds the states of the process for which a
    /// node of the product reaches them with a probability that meets the
    /// bound.
    pub open spec fn answered_by(&self, pctl_info: &PctlInfo, d: Pipeline, out: Outcome) -> bool {
        let g = d.product.mdp@;
        let pairs = d.product.pairs@;
        let goal = set_of(d.accepting);
        let eps = pctl_info.max_error as int;
        &&& d.vwaa.is_automaton_of(self.phi@)
        &&& d.gba.is_gba_of(&d.vwaa)
        &&& d.ba.is_ba_of(&d.gba)
        &&& d.dra.determinizes(&d.ba)
        &&& d.product.is_product_of(pctl_info, &d.dra)
        &&& d.accepting.len() == g.states.len()
        &&& forall|s: int|
            0 <= s < d.accepting.len() ==> (#[trigger] d.accepting[s] <==> in_aec(g, pairs, d.dra.acc@, s))
        &&& out.initial == meets(g, goal, eps, self.comp, self.probability, d.product.initial as int)
        &&& forall|k: int, l: int| 0 <= k < l < out.states@.len() ==> out.states@[k] < out.states@[l]
        &&& forall|s: int|
            nodes_of(out.states@).contains(s) <==> met_at(
                g,
                pairs,
                goal,
                eps,
                self.comp,
                self.probability,
                s,
            )
    }

    /// `out` is the answer to the query asked of the process.
    pub open spec fn answers(&self, pctl_info: &PctlInfo, out: Outcome) -> bool {
        exists|d: Pipeline| self.answered_by(pctl_info, d, out)
    }

    /// Answers the query: the formula is turned into a deterministic Rabin
    /// automaton, the product of the process with the automaton is built,
    /// and the probability of reaching an accepting end component of the
    /// product is held against the bound.
    pub fn evaluate(&self, pctl_info: &PctlInfo) -> (res: Result<Outcome, Error>)
        requires
            pctl_info.wf(),
        ensures
            self.probability > ONE ==> res == Err::<Outcome, Error>(Error::InvalidProbabilityBound),
            self.probability <= ONE ==> res is Ok && ({
                let out = res.unwrap();
                &&& self.answers(pctl_info, out)
                &&& forall|k: int, l: int|
                    0 <= k < l < out.states@.len() ==> out.states@[k] < out.states@[l]
                &&& forall|k: int|
                    0 <= k < out.states@.len() ==> pctl_info.reach_graph@.is_state(
                        (#[trigger] out.states@[k]) as int,
                    )
                &&& out.initial ==> nodes_of(out.states@).contains(pctl_info.initial_marking as int)
            }),
    {
        if self.probability > ONE {
            return Err(Error::InvalidProbabilityBound);
        }
        let vwaa = to_vwaa(&self.phi);
        let gba = to_gba(&vwaa);
        let ba = to_ba(&gba);
        let dra = determinize(&ba);
        let (product, accepting) = cross_mdp(&dra, pctl_info);
        let ghost d = Pipeline { vwaa, gba, ba, dra, product, accepting: accepting@ };
        let ghost g = product.mdp@;
        let ghost pairs = product.pairs@;
        let ghost goal = set_of(accepting@);
        let ghost first = product.initial as int;
        let nodes = pctl_info.reach_graph.node_count();
        let res = reach_components(
            product,
            &accepting,
            self.comp,
            self.probability,
            pctl_info.max_error,
            nodes,
        );
        proof {
            let out = res.unwrap();
            let eps = pctl_info.max_error as int;
            assert(self.answered_by(pctl_info, d, out));
            assert forall|k: int| 0 <= k < out.states@.len() implies pctl_info.reach_graph@.is_state(
                (#[trigger] out.states@[k]) as int,
            ) by {
                let s = out.states@[k] as int;
                assert(nodes_of(out.states@).contains(s));
                assert(met_at(g, pairs, goal, eps, self.comp, self.probability, s));
                let i = choose|i: int|
                    0 <= i < pairs.len() && (#[trigger] pairs[i]).0 == s && meets(
                        g,
                        goal,
                        eps,
                        self.comp,
                        self.probability,
                        i,
                    );
                assert(g.states[i]);
            }
            if out.initial {
                assert(pairs[first].0 == pctl_info.initial_marking);
                assert(met_at(
                    g,
                    pairs,
                    goal,
                    eps,
                    self.comp,
                    self.probability,
                    pctl_info.initial_marking as int,
                ));
            }
        }
        res
    }
}

impl Formula {
    /// Answers the query.
    pub fn evaluate(&self, pctl_info: &PctlInfo) -> (res: Result<Outcome, Error>)
        requires
            pctl_info.wf(),
        ensures
            match self {
                Formula::Pctl(f) => match f.0.failure(pctl_info.ap_map@) {
                    Some(fail) => res matches Err(e) && reports(e, fail),
                    None => res matches Ok(out) && nodes_of(out.states@) == f.0.sat_set(
                        pctl_info.reach_graph@,
                        pctl_info.ap_map@,
                        pctl_info.max_error as int,
                    ) && out.initial == f.0.sat(
                        pctl_info.reach_graph@,
                        pctl_info.ap_map@,
                        pctl_info.max_error as int,
                        pctl_info.initial_marking as int,
                    ),
                },
                Formula::Ltl(q) => (q.probability > ONE ==> res == Err::<Outcome, Error>(
                    Error::InvalidProbabilityBound,
                )) && (q.probability <= ONE ==> res is Ok && q.answers(pctl_info, res.unwrap())),
            },
    {
        match self {
            Formula::Pctl(f) => {
                let states = match f.evaluate(pctl_info) {
                    Ok(l) => l,
                    Err(e) => {
                        return Err(e);
                    },
                };
                let initial = match f.holds_initially(pctl_info) {
                    Ok(b) => b,
                    Err(e) => {
                        return Err(e);
                    },
                };
                Ok(Outcome { states, initial })
            },
            Formula::Ltl(q) => q.evaluate(pctl_info),
        }
    }
}

/// The marker `PHI` stands at place `i`.
pub open spec fn marked_at(s: Seq<char>, i: int) -> bool {
    0 <= i && i + 3 <= s.len() && s[i] == 'P' && s[i + 1] == 'H' && s[i + 2] == 'I'
}

/// The first place from `i` on at which the marker stands; the length of
/// the text where it stands nowhere.
pub open spec fn first_mark(s: Seq<char>, i: int) -> int
    decreases s.len() - i,
{
    if i < 0 || i >= s.len() {
        s.len() as int
    } else if marked_at(s, i) {
        i
    } else {
        first_mark(s, i + 1)
    }
}

/// The text of the query: what stands from the marker on, where the
/// marker stands exactly once.
pub open spec fn formula_text(s: Seq<char>) -> Option<Seq<char>> {
    let a = first_mark(s, 0);
    if a >= s.len() || first_mark(s, a + 3) < s.len() {
        None
    } else {
        Some(s.subrange(a, s.len() as int))
    }
}

/// The first place from `i` on at which the marker stands.
fn find_mark(s: &str, n: usize, i: usize) -> (res: usize)
    requires
        n == s@.len(),
        i <= n,
    ensures
        res == first_mark(s@, i as int),
        i <= res <= n,
        res < n ==> marked_at(s@, res as int),
{
    let mut j = i;
    while j < n
        invariant
            n == s@.len(),
            i <= j <= n,
            first_mark(s@, i as int) == first_mark(s@, j as int),
        decreases n - j,
    {
        if n - j >= 3 && s.get_char(j) == 'P' && s.get_char(j + 1) == 'H' && s.get_char(j + 2) == 'I' {
            return j;
        }
        j = j + 1;
    }
    j
}

/// The text of the query: what stands from the marker `PHI` on. There is
/// none unless the marker stands exactly once.
pub fn find_formula(content: &str) -> (res: Option<String>)
    ensures
        match formula_text(content@) {
            Some(t) => res matches Some(x) && x@ == t,
            None => res is None,
        },
{
    let n = content.unicode_len();
    let start_index = find_mark(content, n, 0);
    if start_index >= n {
        return None;
    }
    let end_index = start_index + 3;
    if find_mark(content, n, end_index) < n {
        return None;
    }
    Some(String::from_str(content.substring_char(start_index, n)))
}

/// The LTL formula that a syntax tree stands for, in negation normal form:
/// negation is pushed to the propositions, eventually is an until after
/// `true`, always a release after `false`, and conjunctions and
/// disjunctions are made simpler where they can be. A probability bound
/// inside a formula stands for nothing.
pub open spec fn ltl_of(t: Tree) -> Option<Ltl>
    decreases t,
{
    match t {
        Tree::True => Some(Ltl::True),
        Tree::False => Some(Ltl::False),
        Tree::Ap(name) => Some(Ltl::AP(name)),
        Tree::Not(x) => match ltl_of(*x) {
            Some(f) => Some(negation(f)),
            None => None,
        },
        Tree::Next(x) => match ltl_of(*x) {
            Some(f) => Some(Ltl::Next(Box::new(f))),
            None => None,
        },
        Tree::Ev(x) => match ltl_of(*x) {
            Some(f) => Some(Ltl::Until(Box::new(Ltl::True), Box::new(f))),
            None => None,
        },
        Tree::Alw(x) => match ltl_of(*x) {
            Some(f) => Some(Ltl::Release(Box::new(Ltl::False), Box::new(f))),
            None => None,
        },
        Tree::And(l, r) => match (ltl_of(*l), ltl_of(*r)) {
            (Some(a), Some(b)) => Some(conj(a, b)),
            _ => None,
        },
        Tree::Or(l, r) => match (ltl_of(*l), ltl_of(*r)) {
            (Some(a), Some(b)) => Some(disj(a, b)),
            _ => None,
        },
        Tree::Until(l, r) => match (ltl_of(*l), ltl_of(*r)) {
            (Some(a), Some(b)) => Some(Ltl::Until(Box::new(a), Box::new(b))),
            _ => None,
        },
        Tree::Release(l, r) => match (ltl_of(*l), ltl_of(*r)) {
            (Some(a), Some(b)) => Some(Ltl::Release(Box::new(a), Box::new(b))),
            _ => None,
        },
        Tree::Prob(_, _, _) => None,
    }
}

/// The LTL query that a syntax tree stands for: a probability bound, of at
/// most one, on an LTL formula.
pub open spec fn ltl_query_of(t: Tree) -> Option<(Ltl, Comp, u64)> {
    match t {
        Tree::Prob(x, comp, q) => if q > ONE {
            None
        } else {
            match ltl_of(*x) {
                Some(f) => Some((f, comp, q)),
                None => None,
            }
        },
        _ => None,
    }
}

/// The reader of LTL queries.
#[derive(Debug, Default)]
pub struct LtlImpl;

impl LtlImpl {
    /// The LTL formula that a syntax tree stands for.
    pub fn parse_phi(pair: &Syntax) -> (res: Result<PhiOp, Error>)
        ensures
            match ltl_of(pair@) {
                Some(f) => res matches Ok(x) && x@ == f,
                None => res matches Err(e) && e is Parse,
            },
        decreases pair,
    {
        match pair {
            Syntax::Ap(name) => Ok(LtlAP::create(name.clone())),
            Syntax::True => Ok(LtlTrue::create()),
            Syntax::False => Ok(False::create()),
            Syntax::Alw(x) => match Self::parse_phi(x) {
                Ok(phi) => Ok(Release::create(False::create(), phi)),
                Err(e) => Err(e),
            },
            Syntax::And(l, r) => {
                let left_phi = match Self::parse_phi(l) {
                    Ok(x) => x,
                    Err(e) => {
                        return Err(e);
                    },
                };
                let right_phi = match Self::parse_phi(r) {
                    Ok(x) => x,
                    Err(e) => {
                        return Err(e);
                    },
                };
                Ok(And::create(left_phi, right_phi))
            },
            Syntax::Or(l, r) => {
                let left_phi = match Self::parse_phi(l) {
                    Ok(x) => x,
                    Err(e) => {
                        return Err(e);
                    },
                };
                let right_phi = match Self::parse_phi(r) {
                    Ok(x) => x,
                    Err(e) => {
                        return Err(e);
                    },
                };
                Ok(Or::create(left_phi, right_phi))
            },
            Syntax::Not(x) => match Self::parse_phi(x) {
                Ok(phi) => Ok(phi.negate()),
                Err(e) => Err(e),
            },
            Syntax::Next(x) => match Self::parse_phi(x) {
                Ok(left_phi) => Ok(LtlNext::create(left_phi)),
                Err(e) => Err(e),
            },
            Syntax::Until(l, r) => {
                let left_phi = match Self::parse_phi(l) {
                    Ok(x) => x,
                    Err(e) => {
                        return Err(e);
                    },
                };
                let right_phi = match Self::parse_phi(r) {
                    Ok(x) => x,
                    Err(e) => {
                        return Err(e);
                    },
                };
                Ok(LtlUntil::create(left_phi, right_phi))
            },
            Syntax::Release(l, r) => {
                let left_phi = match Self::parse_phi(l) {
                    Ok(x) => x,
                    Err(e) => {
                        return Err(e);
                    },
                };
                let right_phi = match Self::parse_phi(r) {
                    Ok(x) => x,
                    Err(e) => {
                        return Err(e);
                    },
                };
                Ok(Release::create(left_phi, right_phi))
            },
            Syntax::Ev(x) => match Self::parse_phi(x) {
                Ok(inner_rule) => Ok(LtlUntil::create(LtlTrue::create(), inner_rule)),
                Err(e) => Err(e),
            },
            Syntax::Prob(_, _, _) => Err(Error::Parse),
        }
    }

    /// Reads an LTL query from a text: the part of the text from the marker
    /// `PHI` on must be a probability bound on an LTL formula.
    pub fn read(content: &str) -> (res: Result<LtlQuery, Error>)
        ensures
            match ltl_text(content@) {
                Some(q) => res matches Ok(x) && x.phi@ == q.0 && x.comp == q.1 && x.probability
                    == q.2,
                None => res matches Err(e) && e is Parse,
            },
    {
        let phi_content = match find_formula(content) {
            None => {
                return Err(Error::Parse);
            },
            Some(c) => c,
        };
        let tree = match read_query(phi_content.as_str()) {
            None => {
                return Err(Error::Parse);
            },
            Some(t) => t,
        };
        match tree {
            Syntax::Prob(x, comp, probability) => {
                if probability > ONE {
                    return Err(Error::Parse);
                }
                match Self::parse_phi(&x) {
                    Ok(phi) => Ok(LtlQuery { phi, comp, probability }),
                    Err(e) => Err(e),
                }
            },
            _ => Err(Error::Parse),
        }
    }
}

/// The LTL query that a text stands for.
pub open spec fn ltl_text(s: Seq<char>) -> Option<(Ltl, Comp, u64)> {
    match formula_text(s) {
        Some(t) => match query_of(t) {
            Some(tree) => ltl_query_of(tree),
            None => None,
        },
        None => None,
    }
}

/// The PCTL query that a text stands for.
pub open spec fn pctl_text(s: Seq<char>) -> Option<crate::pctl::Pctl> {
    match formula_text(s) {
        Some(t) => match query_of(t) {
            Some(tree) => state_of(tree),
            None => None,
        },
        None => None,
    }
}

impl PctlImpl {
    /// Reads a PCTL query from a text: the part of the text from the marker
    /// `PHI` on must be a state formula.
    pub fn read(content: &str) -> (res: Result<PctlFormula, Error>)
        ensures
            match pctl_text(content@) {
                Some(p) => res matches Ok(x) && x.0.model() == p,
                None => res matches Err(e) && e is Parse,
            },
    {
        let phi_content = match find_formula(content) {
            None => {
                return Err(Error::Parse);
            },
            Some(c) => c,
        };
        let tree = match read_query(phi_content.as_str()) {
            None => {
                return Err(Error::Parse);
            },
            Some(t) => t,
        };
        match PctlImpl::parse_state(&tree) {
            Ok(state_phi) => Ok(PctlFormula(state_phi)),
            Err(e) => Err(e),
        }
    }
}

/// `res` is what reading the text as a query of the logic gives: the query
/// for which the text stands, or a parse error.
pub open spec fn reads_as(logic_type: LogicType, content: Seq<char>, res: Result<Formula, Error>) -> bool {
    match logic_type {
        LogicType::Pctl => match pctl_text(content) {
            Some(p) => res matches Ok(f) && (f matches Formula::Pctl(x) && x.0.model() == p),
            None => res matches Err(e) && e is Parse,
        },
        LogicType::LTL => match ltl_text(content) {
            Some(q) => res matches Ok(f) && (f matches Formula::Ltl(x) && x.phi@ == q.0 && x.comp == q.1
                && x.probability == q.2),
            None => res matches Err(e) && e is Parse,
        },
    }
}

/// A reader of queries of one logic.
pub trait LogicImpl {
    /// The logic of the queries that are read.
    spec fn logic(&self) -> LogicType;

    /// Reads a query from a text.
    fn parse(&self, content: &str) -> (res: Result<Formula, Error>)
        ensures
            reads_as(self.logic(), content@, res),
    ;
}

impl LogicImpl for PctlImpl {
    open spec fn logic(&self) -> LogicType {
        LogicType::Pctl
    }

    fn parse(&self, content: &str) -> (res: Result<Formula, Error>) {
        match PctlImpl::read(content) {
            Ok(f) => Ok(Formula::Pctl(f)),
            Err(e) => Err(e),
        }
    }
}

impl LogicImpl for LtlImpl {
    open spec fn logic(&self) -> LogicType {
        LogicType::LTL
    }

    fn parse(&self, content: &str) -> (res: Result<Formula, Error>) {
        match LtlImpl::read(content) {
            Ok(q) => Ok(Formula::Ltl(q)),
            Err(e) => Err(e),
        }
    }
}

/// Reads a query of the given logic from a text.
pub fn parse_formula(logic_type: LogicType, content: &str) -> (res: Result<Formula, Error>)
    ensures
        reads_as(logic_type, content@, res),
{
    match logic_type {
        LogicType::Pctl => match PctlImpl::read(content) {
            Ok(f) => Ok(Formula::Pctl(f)),
            Err(e) => Err(e),
        },
        LogicType::LTL => match LtlImpl::read(content) {
            Ok(q) => Ok(Formula::Ltl(q)),
            Err(e) => Err(e),
        },
    }
}

} // verus!
