//! PCTL: state and path formulae, and their evaluation on a decision
//! process.

use crate::comp::{Comp, ONE};
use crate::error::Error;
use crate::fixpoint::{set_of, state_mask, u_op, u_set, w_op, w_set};
use crate::mdp::{tolerance_of, Mdp, MdpView};
use crate::value_iteration::{
    bellman, bounded, lemma_bellman_range, rising, rounds, settle, settled, settles_at,
    state_value,
};
use crate::syntax::{Syntax, Tree};
use vstd::prelude::*;

verus! {

/// The nodes that a list names.
pub open spec fn nodes_of(v: Seq<usize>) -> Set<int> {
    Set::new(|i: int| exists|j: int| 0 <= j < v.len() && #[trigger] v[j] == i)
}

/// The labelling after the first `k` entries were inserted in turn.
pub open spec fn labelling(names: Seq<String>, sets: Seq<Vec<usize>>, k: int) -> Map<
    Seq<char>,
    Set<int>,
>
    decreases k,
{
    if k <= 0 {
        Map::empty()
    } else {
        labelling(names, sets, k - 1).insert(names[k - 1]@, nodes_of(sets[k - 1]@))
    }
}

/// The labelling: which atomic proposition holds at which nodes.
pub struct ApMap {
    names: Vec<String>,
    sets: Vec<Vec<usize>>,
}

impl View for ApMap {
    type V = Map<Seq<char>, Set<int>>;

    closed spec fn view(&self) -> Map<Seq<char>, Set<int>> {
        labelling(self.names@, self.sets@, self.names@.len() as int)
    }
}

impl ApMap {
    /// There is one set for each name. Every method keeps this.
    pub closed spec fn wf(&self) -> bool {
        self.names@.len() == self.sets@.len()
    }

    /// The number of entries that were inserted; an entry that was
    /// inserted again counts again.
    pub closed spec fn entries(&self) -> nat {
        self.names@.len()
    }

    /// The labelling without propositions.
    pub fn new() -> (res: ApMap)
        ensures
            res.wf(),
            res@ == Map::<Seq<char>, Set<int>>::empty(),
            res.entries() == 0,
    {
        ApMap { names: Vec::new(), sets: Vec::new() }
    }

    /// Lets proposition `name` hold at exactly `nodes`.
    pub fn insert(&mut self, name: String, nodes: Vec<usize>)
        requires
            old(self).wf(),
        ensures
            final(self).wf(),
            final(self)@ == old(self)@.insert(name@, nodes_of(nodes@)),
            final(self).entries() == old(self).entries() + 1,
    {
        self.names.push(name);
        self.sets.push(nodes);
        assert(self.names@.drop_last() =~= old(self).names@);
        assert(self.sets@.drop_last() =~= old(self).sets@);
        proof {
            lemma_labelling_prefix(
                self.names@,
                self.sets@,
                old(self).names@,
                old(self).sets@,
                old(self).names@.len() as int,
            );
        }
    }

    /// The number of entries that were inserted.
    pub fn entry_count(&self) -> (n: usize)
        requires
            self.wf(),
        ensures
            n == self.entries(),
    {
        self.names.len()
    }

    /// The position of the entry that decides `name`: the last one with
    /// this name.
    fn position(&self, name: &String) -> (res: Option<usize>)
        requires
            self.wf(),
        ensures
            res is None <==> !self@.dom().contains(name@),
            res matches Some(i) ==> i < self.names@.len() && self@[name@] == nodes_of(
                self.sets@[i as int]@,
            ),
    {
        let n = self.names.len();
        let mut found: Option<usize> = None;
        let mut i: usize = 0;
        while i < n
            invariant
                self.wf(),
                n == self.names@.len(),
                i <= n,
                found is None <==> !labelling(self.names@, self.sets@, i as int).dom().contains(
                    name@,
                ),
                found matches Some(j) ==> j < i && labelling(self.names@, self.sets@, i as int)[name@]
                    == nodes_of(self.sets@[j as int]@),
            decreases n - i,
        {
            if self.names[i] == *name {
                found = Some(i);
            }
            i = i + 1;
        }
        found
    }

    /// Whether the labelling knows proposition `name`.
    pub fn contains_key(&self, name: &String) -> (res: bool)
        requires
            self.wf(),
        ensures
            res == self@.dom().contains(name@),
    {
        self.position(name).is_some()
    }

    /// Whether proposition `name` holds at `node`.
    pub fn holds_at(&self, name: &String, node: usize) -> (res: bool)
        requires
            self.wf(),
        ensures
            res == (self@.dom().contains(name@) && self@[name@].contains(node as int)),
    {
        match self.position(name) {
            None => false,
            Some(p) => {
                let list = &self.sets[p];
                let mut holds = false;
                let mut j: usize = 0;
                while j < list.len()
                    invariant
                        j <= list@.len(),
                        holds <==> exists|x: int| 0 <= x < j && #[trigger] list@[x] == node,
                    decreases list@.len() - j,
                {
                    if list[j] == node {
                        holds = true;
                    }
                    j = j + 1;
                }
                proof {
                    if nodes_of(list@).contains(node as int) {
                        let x = choose|x: int| 0 <= x < list@.len() && #[trigger] list@[x] == node as int;
                        assert(list@[x] == node);
                    }
                }
                holds
            },
        }
    }

    /// The propositions that hold at `node`, each once.
    pub fn names_at(&self, node: usize) -> (res: Vec<String>)
        requires
            self.wf(),
        ensures
            forall|k: int|
                0 <= k < res@.len() ==> self@.dom().contains((#[trigger] res@[k])@)
                    && self@[res@[k]@].contains(node as int),
            forall|name: Seq<char>|
                self@.dom().contains(name) && self@[name].contains(node as int) ==> #[trigger] named(
                    res@,
                    name,
                ),
            forall|k: int, l: int| 0 <= k < l < res@.len() ==> (#[trigger] res@[k])@ != (#[trigger] res@[l])@,
    {
        let n = self.names.len();
        let mut res: Vec<String> = Vec::new();
        let mut i: usize = 0;
        while i < n
            invariant
                self.wf(),
                n == self.names@.len(),
                i <= n,
                forall|k: int|
                    0 <= k < res@.len() ==> self@.dom().contains((#[trigger] res@[k])@)
                        && self@[res@[k]@].contains(node as int),
                forall|j: int|
                    0 <= j < i && self@.dom().contains((#[trigger] self.names@[j])@)
                        && self@[self.names@[j]@].contains(node as int) ==> named(
                        res@,
                        self.names@[j]@,
                    ),
                forall|k: int, l: int|
                    0 <= k < l < res@.len() ==> (#[trigger] res@[k])@ != (#[trigger] res@[l])@,
            decreases n - i,
        {
            let name = &self.names[i];
            let ghost before = res@;
            if self.holds_at(name, node) && !is_named(&res, name) {
                res.push(name.clone());
                assert(res@[before.len() as int]@ == name@);
            }
            proof {
                assert forall|m: Seq<char>| named(before, m) implies named(res@, m) by {
                    let k = choose|k: int| 0 <= k < before.len() && (#[trigger] before[k])@ == m;
                    assert(res@[k]@ == m);
                }
            }
            i = i + 1;
        }
        proof {
            assert forall|name: Seq<char>|
                self@.dom().contains(name) && self@[name].contains(node as int) implies #[trigger] named(
                res@,
                name,
            ) by {
                lemma_labelling_dom(self.names@, self.sets@, n as int, name);
                let j = choose|j: int| 0 <= j < n && (#[trigger] self.names@[j])@ == name;
                assert(self@.dom().contains(self.names@[j]@));
            }
        }
        res
    }

    /// The nodes at which `name` holds, as one flag for each of `n` nodes.
    pub fn mask(&self, name: &String, n: usize) -> (res: Option<Vec<bool>>)
        requires
            self.wf(),
        ensures
            res is None <==> !self@.dom().contains(name@),
            res matches Some(m) ==> m@.len() == n && forall|i: int|
                0 <= i < n ==> m@[i] == self@[name@].contains(i),
    {
        match self.position(name) {
            None => None,
            Some(p) => {
                let list = &self.sets[p];
                let mut m: Vec<bool> = Vec::new();
                let mut i: usize = 0;
                while i < n
                    invariant
                        i <= n,
                        m@.len() == i,
                        forall|j: int| 0 <= j < i ==> !m@[j],
                    decreases n - i,
                {
                    m.push(false);
                    i = i + 1;
                }
                let mut k: usize = 0;
                while k < list.len()
                    invariant
                        k <= list@.len(),
                        m@.len() == n,
                        forall|i: int|
                            0 <= i < n ==> (m@[i] <==> exists|j: int|
                                0 <= j < k && #[trigger] list@[j] == i),
                    decreases list@.len() - k,
                {
                    let ghost before = m@;
                    let node = list[k];
                    if node < n {
                        m.set(node, true);
                    }
                    assert forall|i: int| 0 <= i < n implies (m@[i] <==> exists|j: int|
                        0 <= j < k + 1 && #[trigger] list@[j] == i) by {
                        if m@[i] {
                            if before[i] {
                                let j = choose|j: int| 0 <= j < k && #[trigger] list@[j] == i;
                                assert(0 <= j < k + 1);
                            } else {
                                assert(list@[k as int] == i);
                            }
                        } else {
                            if exists|j: int| 0 <= j < k + 1 && #[trigger] list@[j] == i {
                                let j = choose|j: int| 0 <= j < k + 1 && #[trigger] list@[j] == i;
                                if j < k {
                                    assert(before[i]);
                                }
                            }
                        }
                    }
                    k = k + 1;
                }
                Some(m)
            },
        }
    }
}

/// The list holds `name`.
pub open spec fn named(list: Seq<String>, name: Seq<char>) -> bool {
    exists|k: int| 0 <= k < list.len() && (#[trigger] list[k])@ == name
}

/// Whether the list holds `name`.
pub fn is_named(list: &Vec<String>, name: &String) -> (res: bool)
    ensures
        res == named(list@, name@),
{
    let mut k: usize = 0;
    while k < list.len()
        invariant
            k <= list@.len(),
            forall|x: int| 0 <= x < k ==> (#[trigger] list@[x])@ != name@,
        decreases list@.len() - k,
    {
        if list[k] == *name {
            return true;
        }
        k = k + 1;
    }
    false
}

/// A name that the labelling knows is the name of an entry.
pub proof fn lemma_labelling_dom(names: Seq<String>, sets: Seq<Vec<usize>>, k: int, name: Seq<char>)
    requires
        0 <= k <= names.len(),
        labelling(names, sets, k).dom().contains(name),
    ensures
        exists|j: int| 0 <= j < k && (#[trigger] names[j])@ == name,
    decreases k,
{
    if k > 0 {
        if names[k - 1]@ == name {
        } else {
            lemma_labelling_dom(names, sets, k - 1, name);
            let j = choose|j: int| 0 <= j < k - 1 && (#[trigger] names[j])@ == name;
            assert(names[j]@ == name);
        }
    }
}

pub proof fn lemma_labelling_prefix(
    names: Seq<String>,
    sets: Seq<Vec<usize>>,
    names2: Seq<String>,
    sets2: Seq<Vec<usize>>,
    k: int,
)
    requires
        0 <= k <= names.len(),
        k <= names2.len(),
        k <= sets.len(),
        k <= sets2.len(),
        forall|i: int| 0 <= i < k ==> names[i] == names2[i] && sets[i] == sets2[i],
    ensures
        labelling(names, sets, k) == labelling(names2, sets2, k),
    decreases k,
{
    if k > 0 {
        lemma_labelling_prefix(names, sets, names2, sets2, k - 1);
    }
}

/// What a query is asked of: the process, its initial state, the labelling
/// and the stopping threshold of the value iteration, in parts per billion.
pub struct PctlInfo {
    pub initial_marking: usize,
    pub reach_graph: Mdp,
    pub ap_map: ApMap,
    pub max_error: u64,
}

impl PctlInfo {
    /// The process and the labelling are well formed, the initial node is a
    /// state, and the threshold is positive.
    pub open spec fn wf(&self) -> bool {
        &&& self.reach_graph.wf()
        &&& self.ap_map.wf()
        &&& self.reach_graph@.is_state(self.initial_marking as int)
        &&& self.max_error > 0
    }
}

/// The formula that holds everywhere.
#[derive(Debug, PartialEq, Eq)]
pub struct True;

/// An atomic proposition.
#[derive(Debug, PartialEq, Eq)]
pub struct AP {
    pub value: String,
}

/// The negation of a state formula.
#[derive(Debug, PartialEq, Eq)]
pub struct NotPhi {
    pub phi: Box<StatePhi>,
}

/// The conjunction of two state formulae.
#[derive(Debug, PartialEq, Eq)]
pub struct AndPhi {
    pub left_phi: Box<StatePhi>,
    pub right_phi: Box<StatePhi>,
}

/// A bound on the probability of a path formula; `probability` is in parts
/// per billion.
#[derive(Debug, PartialEq, Eq)]
pub struct Prob {
    pub phi: Box<PathPhi>,
    pub probability: u64,
    pub comp: Comp,
}

/// The path formula that holds where the next state satisfies `phi`.
#[derive(Debug, PartialEq, Eq)]
pub struct Next {
    pub phi: Box<StatePhi>,
}

/// The path formula that holds where `prev` holds until `until` does.
#[derive(Debug, PartialEq, Eq)]
pub struct Until {
    pub prev: Box<StatePhi>,
    pub until: Box<StatePhi>,
}

/// A state formula.
#[derive(Debug, PartialEq, Eq)]
pub enum StatePhi {
    True(True),
    AP(AP),
    Not(NotPhi),
    And(AndPhi),
    Prob(Prob),
}

/// A path formula.
#[derive(Debug, PartialEq, Eq)]
pub enum PathPhi {
    Next(Next),
    Until(Until),
}

/// Why the evaluation of a formula fails.
pub enum Failure {
    /// A proposition that the labelling does not know.
    Unknown(Seq<char>),
    /// A probability bound above one.
    Bound,
}

/// The error that reports a failure.
pub open spec fn reports(e: Error, f: Failure) -> bool {
    match f {
        Failure::Unknown(name) => e matches Error::UnknownProposition(s) && s@ == name,
        Failure::Bound => e is InvalidProbabilityBound,
    }
}

/// One for the nodes in `target`, zero for the others.
pub open spec fn indicator(n: int, target: Set<int>) -> Seq<u64> {
    Seq::new(
        n as nat,
        |i: int|
            if target.contains(i) {
                ONE
            } else {
                0u64
            },
    )
}

/// The probability of entering `target` by the next step, from each node:
/// the best over the actions of a state, zero at a node that is none.
pub open spec fn next_values(g: MdpView, target: Set<int>, upper: bool) -> Seq<u64> {
    Seq::new(
        g.states.len(),
        |s: int|
            if g.states[s] {
                bellman(g, indicator(g.node_count(), target), s, upper) as u64
            } else {
                0u64
            },
    )
}

/// The states from which no path satisfies `a U b`.
pub open spec fn never_set(g: MdpView, a: Set<int>, b: Set<int>) -> Set<int> {
    let s = g.state_set();
    w_set(g, s.difference(b), s.difference(a).intersect(s.difference(b)))
}

/// The states from which every path satisfies `a U b`.
pub open spec fn surely_set(g: MdpView, a: Set<int>, b: Set<int>) -> Set<int> {
    u_set(g, a, b)
}

/// The states that the two fixpoints leave undecided.
pub open spec fn undecided_of(g: MdpView, a: Set<int>, b: Set<int>) -> Seq<bool> {
    Seq::new(
        g.states.len(),
        |i: int| g.states[i] && !never_set(g, a, b).contains(i) && !surely_set(g, a, b).contains(i),
    )
}

/// The values from which the iteration starts: one where the formula holds
/// surely, zero elsewhere.
pub open spec fn start_of(g: MdpView, a: Set<int>, b: Set<int>) -> Seq<u64> {
    indicator(g.node_count(), surely_set(g, a, b))
}

/// The probability of `a U b` from each node, as the value iteration with
/// threshold `eps` leaves it.
pub open spec fn until_values(g: MdpView, a: Set<int>, b: Set<int>, upper: bool, eps: int) -> Seq<
    u64,
> {
    settled(g, undecided_of(g, a, b), upper, start_of(g, a, b), eps)
}

/// The bound holds of every probability: `>= 0` or `<= 1`.
pub open spec fn trivial(comp: Comp, q: u64) -> bool {
    (comp == Comp::Geq && q == 0) || (comp == Comp::Leq && q == ONE)
}

impl PathPhi {
    /// The first failure that the evaluation of the path formula meets, if
    /// any.
    pub open spec fn failure(&self, ap: Map<Seq<char>, Set<int>>) -> Option<Failure>
        decreases self, 0int,
    {
        match self {
            PathPhi::Next(n) => n.phi.failure(ap),
            PathPhi::Until(u) => match u.prev.failure(ap) {
                Some(f) => Some(f),
                None => u.until.failure(ap),
            },
        }
    }

    /// The first failure that the evaluation of a bound on the path formula
    /// meets, if any: a bound above one; nothing where the bound holds
    /// trivially; else what the path formula meets.
    pub open spec fn failure_under(&self, ap: Map<Seq<char>, Set<int>>, comp: Comp, q: u64) -> Option<
        Failure,
    >
        decreases self, 1int,
    {
        if q > ONE {
            Some(Failure::Bound)
        } else if trivial(comp, q) {
            None
        } else {
            self.failure(ap)
        }
    }

    /// The probability of the path formula from each node.
    pub open spec fn values(
        &self,
        g: MdpView,
        ap: Map<Seq<char>, Set<int>>,
        eps: int,
        upper: bool,
    ) -> Seq<u64>
        decreases self, 0int,
    {
        match self {
            PathPhi::Next(n) => next_values(g, n.phi.sat_set(g, ap, eps), upper),
            PathPhi::Until(u) => until_values(
                g,
                u.prev.sat_set(g, ap, eps),
                u.until.sat_set(g, ap, eps),
                upper,
                eps,
            ),
        }
    }

    /// State `s` satisfies the bound `comp q` on the path formula. An upper
    /// bound is held against the largest probability that a choice of
    /// actions gives, a lower bound against the smallest.
    pub open spec fn sat_under(
        &self,
        g: MdpView,
        ap: Map<Seq<char>, Set<int>>,
        eps: int,
        comp: Comp,
        q: u64,
        s: int,
    ) -> bool
        decreases self, 1int,
    {
        g.is_state(s) && (trivial(comp, q) || comp.holds(
            self.values(g, ap, eps, comp.upper())[s] as int,
            q as int,
        ))
    }
}

impl StatePhi {
    /// The first failure that the evaluation meets, if any. Below a bound
    /// that holds trivially nothing is evaluated.
    pub open spec fn failure(&self, ap: Map<Seq<char>, Set<int>>) -> Option<Failure>
        decreases self, 0int,
    {
        match self {
            StatePhi::True(_) => None,
            StatePhi::AP(a) => if ap.dom().contains(a.value@) {
                None
            } else {
                Some(Failure::Unknown(a.value@))
            },
            StatePhi::Not(n) => n.phi.failure(ap),
            StatePhi::And(a) => match a.left_phi.failure(ap) {
                Some(f) => Some(f),
                None => a.right_phi.failure(ap),
            },
            StatePhi::Prob(p) => p.phi.failure_under(ap, p.comp, p.probability),
        }
    }

    /// State `s` satisfies the formula.
    pub open spec fn sat(&self, g: MdpView, ap: Map<Seq<char>, Set<int>>, eps: int, s: int) -> bool
        decreases self, 0int,
    {
        g.is_state(s) && match self {
            StatePhi::True(_) => true,
            StatePhi::AP(a) => ap.dom().contains(a.value@) && ap[a.value@].contains(s),
            StatePhi::Not(n) => !n.phi.sat(g, ap, eps, s),
            StatePhi::And(a) => a.left_phi.sat(g, ap, eps, s) && a.right_phi.sat(g, ap, eps, s),
            StatePhi::Prob(p) => p.phi.sat_under(g, ap, eps, p.comp, p.probability, s),
        }
    }

    /// The states that satisfy the formula.
    pub open spec fn sat_set(&self, g: MdpView, ap: Map<Seq<char>, Set<int>>, eps: int) -> Set<int>
        decreases self, 1int,
    {
        Set::new(|s: int| self.sat(g, ap, eps, s))
    }
}

/// The flags `m` say which states satisfy `phi`.
pub open spec fn decides(m: Seq<bool>, phi: &StatePhi, info: &PctlInfo) -> bool {
    &&& m.len() == info.reach_graph@.states.len()
    &&& forall|s: int|
        0 <= s < m.len() ==> m[s] == phi.sat(
            info.reach_graph@,
            info.ap_map@,
            info.max_error as int,
            s,
        )
}

impl Until {
    /// Decides the states from which the formula holds with probability
    /// zero and one. Returns the values from which the iteration starts (one
    /// where the formula holds surely, zero elsewhere), the states where it
    /// holds surely, and the states that are left undecided.
    pub fn s1_sq(&self, pctl_info: &PctlInfo) -> (res: Result<(Vec<u64>, Vec<bool>, Vec<bool>), Error>)
        requires
            pctl_info.wf(),
        ensures
            match PathPhi::Until(*self).failure(pctl_info.ap_map@) {
                Some(f) => res matches Err(e) && reports(e, f),
                None => res matches Ok(t) && ({
                    let g = pctl_info.reach_graph@;
                    let a = self.prev.sat_set(g, pctl_info.ap_map@, pctl_info.max_error as int);
                    let b = self.until.sat_set(g, pctl_info.ap_map@, pctl_info.max_error as int);
                    &&& t.0@ == start_of(g, a, b)
                    &&& t.1@.len() == g.states.len()
                    &&& set_of(t.1@) == surely_set(g, a, b)
                    &&& t.2@ == undecided_of(g, a, b)
                    &&& bounded(t.0@)
                    &&& rising(g, t.2@, true, t.0@)
                    &&& rising(g, t.2@, false, t.0@)
                }),
            },
        decreases self,
    {
        let mdp = &pctl_info.reach_graph;
        let n = mdp.node_count();
        let a = match self.prev.evaluate_inner(pctl_info) {
            Ok(m) => m,
            Err(e) => {
                return Err(e);
            },
        };
        let b = match self.until.evaluate_inner(pctl_info) {
            Ok(m) => m,
            Err(e) => {
                return Err(e);
            },
        };
        let ghost g = mdp@;
        let ghost aset = self.prev.sat_set(g, pctl_info.ap_map@, pctl_info.max_error as int);
        let ghost bset = self.until.sat_set(g, pctl_info.ap_map@, pctl_info.max_error as int);
        assert(set_of(a@) =~= aset);
        assert(set_of(b@) =~= bset);
        let states = state_mask(mdp);
        let mut not_b: Vec<bool> = Vec::new();
        let mut neither: Vec<bool> = Vec::new();
        let mut i: usize = 0;
        while i < n
            invariant
                n == states@.len(),
                n == a@.len(),
                n == b@.len(),
                i <= n,
                not_b@.len() == i,
                neither@.len() == i,
                forall|j: int| 0 <= j < i ==> not_b@[j] == (states@[j] && !b@[j]),
                forall|j: int| 0 <= j < i ==> neither@[j] == (states@[j] && !a@[j] && !b@[j]),
            decreases n - i,
        {
            not_b.push(states[i] && !b[i]);
            neither.push(states[i] && !a[i] && !b[i]);
            i = i + 1;
        }
        assert(set_of(not_b@) =~= g.state_set().difference(bset));
        assert(set_of(neither@) =~= g.state_set().difference(aset).intersect(
            g.state_set().difference(bset),
        ));
        let s_0 = w_op(mdp, &not_b, &neither);
        let s_1 = u_op(mdp, &a, &b);
        let mut values: Vec<u64> = Vec::new();
        let mut s_q: Vec<bool> = Vec::new();
        let mut i: usize = 0;
        while i < n
            invariant
                n == states@.len(),
                n == s_0@.len(),
                n == s_1@.len(),
                i <= n,
                values@.len() == i,
                s_q@.len() == i,
                forall|j: int|
                    0 <= j < i ==> values@[j] == (if s_1@[j] {
                        ONE
                    } else {
                        0u64
                    }),
                forall|j: int| 0 <= j < i ==> s_q@[j] == (states@[j] && !s_0@[j] && !s_1@[j]),
            decreases n - i,
        {
            values.push(
                if s_1[i] {
                    ONE
                } else {
                    0
                },
            );
            s_q.push(states[i] && !s_0[i] && !s_1[i]);
            i = i + 1;
        }
        proof {
            assert(values@ =~= start_of(g, aset, bset));
            assert(s_q@ =~= undecided_of(g, aset, bset));
            assert forall|s: int| 0 <= s < n && s_q@[s] implies values@[s] <= #[trigger] bellman(
                g,
                values@,
                s,
                true,
            ) by {
                lemma_bellman_range(g, values@, s, true);
            }
            assert forall|s: int| 0 <= s < n && s_q@[s] implies values@[s] <= #[trigger] bellman(
                g,
                values@,
                s,
                false,
            ) by {
                lemma_bellman_range(g, values@, s, false);
            }
        }
        Ok((values, s_1, s_q))
    }

    /// The value iteration: sweeps over the undecided states `s_q`, in the
    /// order of their indices, until a sweep moves every value by less than
    /// the threshold. For an upper bound a state takes the largest value of
    /// its actions, for a lower bound the smallest. The iteration stops: the
    /// values are those after the first sweep that moves every value by
    /// less than the threshold, and there is such a sweep.
    pub fn iterate_prob(pctl_info: &PctlInfo, s_q: &Vec<bool>, prob_map: &mut Vec<u64>, comp: &Comp)
        requires
            pctl_info.wf(),
            old(prob_map)@.len() == pctl_info.reach_graph@.states.len(),
            s_q@.len() == old(prob_map)@.len(),
            bounded(old(prob_map)@),
            rising(pctl_info.reach_graph@, s_q@, comp.upper(), old(prob_map)@),
        ensures
            final(prob_map)@ == settled(
                pctl_info.reach_graph@,
                s_q@,
                comp.upper(),
                old(prob_map)@,
                pctl_info.max_error as int,
            ),
            settles_at(
                pctl_info.reach_graph@,
                s_q@,
                comp.upper(),
                old(prob_map)@,
                pctl_info.max_error as int,
                rounds(
                    pctl_info.reach_graph@,
                    s_q@,
                    comp.upper(),
                    old(prob_map)@,
                    pctl_info.max_error as int,
                ),
            ),
            final(prob_map)@.len() == old(prob_map)@.len(),
            bounded(final(prob_map)@),
    {
        let upper = comp.is_upper_bound();
        settle(&pctl_info.reach_graph, s_q, upper, prob_map, pctl_info.max_error);
    }
}

impl PathPhi {
    /// The probability of the path formula from each node: the largest that
    /// a choice of actions gives where `upper` is set, else the smallest.
    pub fn probabilities(&self, pctl_info: &PctlInfo, comp: &Comp) -> (res: Result<Vec<u64>, Error>)
        requires
            pctl_info.wf(),
        ensures
            match self.failure(pctl_info.ap_map@) {
                Some(f) => res matches Err(e) && reports(e, f),
                None => res matches Ok(v) && v@ == self.values(
                    pctl_info.reach_graph@,
                    pctl_info.ap_map@,
                    pctl_info.max_error as int,
                    comp.upper(),
                ) && v@.len() == pctl_info.reach_graph@.states.len(),
            },
        decreases self, 0int,
    {
        let mdp = &pctl_info.reach_graph;
        let n = mdp.node_count();
        let upper = comp.is_upper_bound();
        match self {
            PathPhi::Next(next) => {
                let t = match next.phi.evaluate_inner(pctl_info) {
                    Ok(m) => m,
                    Err(e) => {
                        return Err(e);
                    },
                };
                let ghost g = mdp@;
                let ghost tset = next.phi.sat_set(g, pctl_info.ap_map@, pctl_info.max_error as int);
                let mut ind: Vec<u64> = Vec::new();
                let mut i: usize = 0;
                while i < n
                    invariant
                        n == t@.len(),
                        i <= n,
                        ind@.len() == i,
                        forall|j: int|
                            0 <= j < i ==> ind@[j] == (if t@[j] {
                                ONE
                            } else {
                                0u64
                            }),
                    decreases n - i,
                {
                    ind.push(
                        if t[i] {
                            ONE
                        } else {
                            0
                        },
                    );
                    i = i + 1;
                }
                assert(ind@ =~= indicator(g.node_count(), tset));
                let mut v: Vec<u64> = Vec::new();
                let mut s: usize = 0;
                while s < n
                    invariant
                        mdp.wf(),
                        n == mdp@.states.len(),
                        ind@.len() == n,
                        bounded(ind@),
                        s <= n,
                        v@.len() == s,
                        forall|j: int|
                            0 <= j < s ==> v@[j] == (if mdp@.states[j] {
                                bellman(mdp@, ind@, j, upper) as u64
                            } else {
                                0u64
                            }),
                    decreases n - s,
                {
                    if mdp.is_state(s) {
                        v.push(state_value(mdp, &ind, s, upper));
                    } else {
                        v.push(0);
                    }
                    s = s + 1;
                }
                assert(v@ =~= next_values(g, tset, upper));
                Ok(v)
            },
            PathPhi::Until(until) => {
                let (mut values, _s_1, s_q) = match until.s1_sq(pctl_info) {
                    Ok(t) => t,
                    Err(e) => {
                        return Err(e);
                    },
                };
                Until::iterate_prob(pctl_info, &s_q, &mut values, comp);
                Ok(values)
            },
        }
    }

    /// The states that satisfy the bound `comp prob_bound` on the path
    /// formula. A bound that holds trivially gives all states, whatever
    /// the path formula is.
    pub fn evaluate_inner(&self, pctl_info: &PctlInfo, comp: &Comp, prob_bound: u64) -> (res: Result<
        Vec<bool>,
        Error,
    >)
        requires
            pctl_info.wf(),
        ensures
            match self.failure_under(pctl_info.ap_map@, *comp, prob_bound) {
                Some(f) => res matches Err(e) && reports(e, f),
                None => res matches Ok(m) && m@.len() == pctl_info.reach_graph@.states.len()
                    && forall|s: int|
                    0 <= s < m@.len() ==> m@[s] == self.sat_under(
                        pctl_info.reach_graph@,
                        pctl_info.ap_map@,
                        pctl_info.max_error as int,
                        *comp,
                        prob_bound,
                        s,
                    ),
            },
        decreases self, 1int,
    {
        let mdp = &pctl_info.reach_graph;
        if prob_bound > ONE {
            return Err(Error::InvalidProbabilityBound);
        }
        let geq_zero = matches!(comp, Comp::Geq) && prob_bound == 0;
        let leq_one = matches!(comp, Comp::Leq) && prob_bound == ONE;
        if geq_zero || leq_one {
            return Ok(state_mask(mdp));
        }
        let v = match self.probabilities(pctl_info, comp) {
            Ok(v) => v,
            Err(e) => {
                return Err(e);
            },
        };
        let n = mdp.node_count();
        let mut m: Vec<bool> = Vec::new();
        let mut s: usize = 0;
        while s < n
            invariant
                mdp.wf(),
                n == mdp@.states.len(),
                v@.len() == n,
                s <= n,
                m@.len() == s,
                forall|j: int|
                    0 <= j < s ==> m@[j] == (mdp@.states[j] && comp.holds(
                        v@[j] as int,
                        prob_bound as int,
                    )),
            decreases n - s,
        {
            m.push(mdp.is_state(s) && comp.evaluate(v[s], prob_bound));
            s = s + 1;
        }
        Ok(m)
    }
}

impl StatePhi {
    /// The states that satisfy the formula, as one flag for each node.
    pub fn evaluate_inner(&self, pctl_info: &PctlInfo) -> (res: Result<Vec<bool>, Error>)
        requires
            pctl_info.wf(),
        ensures
            match self.failure(pctl_info.ap_map@) {
                Some(f) => res matches Err(e) && reports(e, f),
                None => res matches Ok(m) && decides(m@, self, pctl_info),
            },
        decreases self, 0int,
    {
        let mdp = &pctl_info.reach_graph;
        let n = mdp.node_count();
        match self {
            StatePhi::True(_) => Ok(state_mask(mdp)),
            StatePhi::AP(ap) => {
                match pctl_info.ap_map.mask(&ap.value, n) {
                    None => Err(Error::UnknownProposition(ap.value.clone())),
                    Some(at) => {
                        let mut m: Vec<bool> = Vec::new();
                        let mut s: usize = 0;
                        while s < n
                            invariant
                                mdp.wf(),
                                n == mdp@.states.len(),
                                at@.len() == n,
                                s <= n,
                                m@.len() == s,
                                forall|j: int| 0 <= j < s ==> m@[j] == (mdp@.states[j] && at@[j]),
                            decreases n - s,
                        {
                            m.push(mdp.is_state(s) && at[s]);
                            s = s + 1;
                        }
                        Ok(m)
                    },
                }
            },
            StatePhi::Not(not) => {
                let inner = match not.phi.evaluate_inner(pctl_info) {
                    Ok(m) => m,
                    Err(e) => {
                        return Err(e);
                    },
                };
                let mut m: Vec<bool> = Vec::new();
                let mut s: usize = 0;
                while s < n
                    invariant
                        mdp.wf(),
                        n == mdp@.states.len(),
                        inner@.len() == n,
                        s <= n,
                        m@.len() == s,
                        forall|j: int| 0 <= j < s ==> m@[j] == (mdp@.states[j] && !inner@[j]),
                    decreases n - s,
                {
                    m.push(mdp.is_state(s) && !inner[s]);
                    s = s + 1;
                }
                Ok(m)
            },
            StatePhi::And(and) => {
                let left = match and.left_phi.evaluate_inner(pctl_info) {
                    Ok(m) => m,
                    Err(e) => {
                        return Err(e);
                    },
                };
                let right = match and.right_phi.evaluate_inner(pctl_info) {
                    Ok(m) => m,
                    Err(e) => {
                        return Err(e);
                    },
                };
                let mut m: Vec<bool> = Vec::new();
                let mut s: usize = 0;
                while s < n
                    invariant
                        n == left@.len(),
                        n == right@.len(),
                        s <= n,
                        m@.len() == s,
                        forall|j: int| 0 <= j < s ==> m@[j] == (left@[j] && right@[j]),
                    decreases n - s,
                {
                    m.push(left[s] && right[s]);
                    s = s + 1;
                }
                Ok(m)
            },
            StatePhi::Prob(prob) => prob.phi.evaluate_inner(pctl_info, &prob.comp, prob.probability),
        }
    }
}

/// The indices of the flags that are set, in increasing order.
pub fn to_indices(m: &Vec<bool>) -> (res: Vec<usize>)
    ensures
        forall|k: int| 0 <= k < res@.len() ==> (#[trigger] res@[k]) < m@.len() && m@[res@[k] as int],
        forall|k: int, l: int| 0 <= k < l < res@.len() ==> res@[k] < res@[l],
        forall|i: int| 0 <= i < m@.len() && m@[i] ==> nodes_of(res@).contains(i),
{
    let n = m.len();
    let mut res: Vec<usize> = Vec::new();
    let mut i: usize = 0;
    while i < n
        invariant
            n == m@.len(),
            i <= n,
            forall|k: int| 0 <= k < res@.len() ==> (#[trigger] res@[k]) < i && m@[res@[k] as int],
            forall|k: int, l: int| 0 <= k < l < res@.len() ==> res@[k] < res@[l],
            forall|j: int| 0 <= j < i && m@[j] ==> nodes_of(res@).contains(j),
        decreases n - i,
    {
        if m[i] {
            let ghost before = res@;
            res.push(i);
            assert forall|j: int| 0 <= j < i + 1 && m@[j] implies nodes_of(res@).contains(j) by {
                if j < i {
                    let k = choose|k: int| 0 <= k < before.len() && #[trigger] before[k] == j;
                    assert(res@[k] == j);
                } else {
                    assert(res@[res@.len() - 1] == j);
                }
            }
        }
        i = i + 1;
    }
    res
}

impl PctlInfo {
    /// Puts a query's surroundings together, and checks them: the threshold
    /// must be positive, the initial node a state, and the weights that
    /// leave each action must add up to one within the slack of `precision`
    /// decimal digits.
    pub fn new(
        initial_marking: usize,
        reach_graph: Mdp,
        ap_map: ApMap,
        max_error: u64,
        precision: u32,
    ) -> (res: Result<PctlInfo, Error>)
        requires
            reach_graph.wf(),
            ap_map.wf(),
        ensures
            max_error == 0 ==> res == Err::<PctlInfo, Error>(Error::InvalidMaxError),
            max_error > 0 && !(reach_graph@.is_state(initial_marking as int)
                && reach_graph@.stochastic(tolerance_of(precision as int))) ==> res == Err::<
                PctlInfo,
                Error,
            >(Error::GraphInvariantViolation),
            max_error > 0 && reach_graph@.is_state(initial_marking as int)
                && reach_graph@.stochastic(tolerance_of(precision as int)) ==> res == Ok::<
                PctlInfo,
                Error,
            >(PctlInfo { initial_marking, reach_graph, ap_map, max_error }),
            res is Ok ==> res.unwrap().wf(),
    {
        if max_error == 0 {
            return Err(Error::InvalidMaxError);
        }
        if initial_marking >= reach_graph.node_count() || !reach_graph.is_state(initial_marking) {
            return Err(Error::GraphInvariantViolation);
        }
        match reach_graph.validate(precision) {
            Err(e) => Err(e),
            Ok(()) => Ok(PctlInfo { initial_marking, reach_graph, ap_map, max_error }),
        }
    }
}

/// A PCTL query: a state formula that is asked of the initial state.
#[derive(Debug, PartialEq, Eq)]
pub struct PctlFormula(pub StatePhi);

impl PctlFormula {
    /// The states that satisfy the formula, in increasing order.
    pub fn evaluate(&self, pctl_info: &PctlInfo) -> (res: Result<Vec<usize>, Error>)
        requires
            pctl_info.wf(),
        ensures
            match self.0.failure(pctl_info.ap_map@) {
                Some(f) => res matches Err(e) && reports(e, f),
                None => res matches Ok(list) && nodes_of(list@) == self.0.sat_set(
                    pctl_info.reach_graph@,
                    pctl_info.ap_map@,
                    pctl_info.max_error as int,
                ) && forall|k: int, l: int| 0 <= k < l < list@.len() ==> list@[k] < list@[l],
            },
    {
        match self.0.evaluate_inner(pctl_info) {
            Err(e) => Err(e),
            Ok(m) => {
                let list = to_indices(&m);
                assert forall|i: int| nodes_of(list@).contains(i) implies self.0.sat(
                    pctl_info.reach_graph@,
                    pctl_info.ap_map@,
                    pctl_info.max_error as int,
                    i,
                ) by {
                    let k = choose|k: int| 0 <= k < list@.len() && #[trigger] list@[k] == i;
                    assert(m@[list@[k] as int]);
                }
                assert forall|i: int|
                    self.0.sat(
                        pctl_info.reach_graph@,
                        pctl_info.ap_map@,
                        pctl_info.max_error as int,
                        i,
                    ) implies nodes_of(list@).contains(i) by {
                    assert(0 <= i < m@.len() && m@[i]);
                }
                assert(nodes_of(list@) =~= self.0.sat_set(
                    pctl_info.reach_graph@,
                    pctl_info.ap_map@,
                    pctl_info.max_error as int,
                ));
                Ok(list)
            },
        }
    }

    /// Whether the initial state satisfies the formula.
    pub fn holds_initially(&self, pctl_info: &PctlInfo) -> (res: Result<bool, Error>)
        requires
            pctl_info.wf(),
        ensures
            match self.0.failure(pctl_info.ap_map@) {
                Some(f) => res matches Err(e) && reports(e, f),
                None => res matches Ok(b) && b == self.0.sat(
                    pctl_info.reach_graph@,
                    pctl_info.ap_map@,
                    pctl_info.max_error as int,
                    pctl_info.initial_marking as int,
                ),
            },
    {
        match self.0.evaluate_inner(pctl_info) {
            Err(e) => Err(e),
            Ok(m) => Ok(m[pctl_info.initial_marking]),
        }
    }
}

/// No node but a state satisfies a formula.
pub proof fn sat_within_states(phi: StatePhi, g: MdpView, ap: Map<Seq<char>, Set<int>>, eps: int)
    ensures
        phi.sat_set(g, ap, eps).subset_of(g.state_set()),
{
}

/// A probability is at least zero and at most one: such a bound holds at
/// every state, whatever the path formula is, and its evaluation does not
/// fail.
pub proof fn trivial_bounds_hold_everywhere(
    path: PathPhi,
    g: MdpView,
    ap: Map<Seq<char>, Set<int>>,
    eps: int,
)
    ensures
        StatePhi::Prob(Prob { phi: Box::new(path), probability: 0, comp: Comp::Geq }).sat_set(
            g,
            ap,
            eps,
        ) == g.state_set(),
        StatePhi::Prob(Prob { phi: Box::new(path), probability: ONE, comp: Comp::Leq }).sat_set(
            g,
            ap,
            eps,
        ) == g.state_set(),
        StatePhi::Prob(Prob { phi: Box::new(path), probability: 0, comp: Comp::Geq }).failure(ap)
            is None,
        StatePhi::Prob(Prob { phi: Box::new(path), probability: ONE, comp: Comp::Leq }).failure(ap)
            is None,
{
    let lo = StatePhi::Prob(Prob { phi: Box::new(path), probability: 0, comp: Comp::Geq });
    let hi = StatePhi::Prob(Prob { phi: Box::new(path), probability: ONE, comp: Comp::Leq });
    assert(path.failure_under(ap, Comp::Geq, 0) is None);
    assert(path.failure_under(ap, Comp::Leq, ONE) is None);
    assert forall|s: int| g.is_state(s) implies lo.sat(g, ap, eps, s) by {
        assert(path.sat_under(g, ap, eps, Comp::Geq, 0, s));
    }
    assert forall|s: int| g.is_state(s) implies hi.sat(g, ap, eps, s) by {
        assert(path.sat_under(g, ap, eps, Comp::Leq, ONE, s));
    }
    assert(lo.sat_set(g, ap, eps) =~= g.state_set());
    assert(hi.sat_set(g, ap, eps) =~= g.state_set());
}

/// What a state formula is, mathematically.
pub enum Pctl {
    True,
    AP(Seq<char>),
    Not(Box<Pctl>),
    And(Box<Pctl>, Box<Pctl>),
    Prob(Box<PctlPath>, Comp, u64),
}

/// What a path formula is, mathematically.
pub enum PctlPath {
    Next(Box<Pctl>),
    Until(Box<Pctl>, Box<Pctl>),
}

impl PathPhi {
    /// The path formula as a mathematical value.
    pub open spec fn model(&self) -> PctlPath
        decreases self,
    {
        match self {
            PathPhi::Next(n) => PctlPath::Next(Box::new(n.phi.model())),
            PathPhi::Until(u) => PctlPath::Until(Box::new(u.prev.model()), Box::new(u.until.model())),
        }
    }
}

impl StatePhi {
    /// The state formula as a mathematical value.
    pub open spec fn model(&self) -> Pctl
        decreases self,
    {
        match self {
            StatePhi::True(_) => Pctl::True,
            StatePhi::AP(a) => Pctl::AP(a.value@),
            StatePhi::Not(n) => Pctl::Not(Box::new(n.phi.model())),
            StatePhi::And(a) => Pctl::And(Box::new(a.left_phi.model()), Box::new(a.right_phi.model())),
            StatePhi::Prob(p) => Pctl::Prob(Box::new(p.phi.model()), p.comp, p.probability),
        }
    }
}

/// The comparison the other way round: what holds of `1 - x` and `1 - y`
/// where the operator holds of `x` and `y`.
pub open spec fn flipped(comp: Comp) -> Comp {
    match comp {
        Comp::Less => Comp::Greater,
        Comp::Leq => Comp::Geq,
        Comp::Greater => Comp::Less,
        Comp::Geq => Comp::Leq,
    }
}

/// The path formula that a syntax tree stands for below a probability
/// bound: next, until, or eventually, which is an until after `true`.
pub open spec fn path_of(t: Tree) -> Option<PctlPath>
    decreases t, 0int,
{
    match t {
        Tree::Next(x) => match state_of(*x) {
            Some(p) => Some(PctlPath::Next(Box::new(p))),
            None => None,
        },
        Tree::Until(l, r) => match (state_of(*l), state_of(*r)) {
            (Some(a), Some(b)) => Some(PctlPath::Until(Box::new(a), Box::new(b))),
            _ => None,
        },
        Tree::Ev(x) => match state_of(*x) {
            Some(p) => Some(PctlPath::Until(Box::new(Pctl::True), Box::new(p))),
            None => None,
        },
        _ => None,
    }
}

/// The state formula that a syntax tree stands for. `false` is the
/// negation of `true`, a disjunction the negation of the conjunction of the
/// negations, and a bound on always a bound, the other way round, on
/// eventually not. A temporal operator outside a probability bound stands
/// for nothing, release stands for nothing, and so does a bound above one.
pub open spec fn state_of(t: Tree) -> Option<Pctl>
    decreases t, 1int,
{
    match t {
        Tree::True => Some(Pctl::True),
        Tree::False => Some(Pctl::Not(Box::new(Pctl::True))),
        Tree::Ap(name) => Some(Pctl::AP(name)),
        Tree::Not(x) => match state_of(*x) {
            Some(p) => Some(Pctl::Not(Box::new(p))),
            None => None,
        },
        Tree::And(l, r) => match (state_of(*l), state_of(*r)) {
            (Some(a), Some(b)) => Some(Pctl::And(Box::new(a), Box::new(b))),
            _ => None,
        },
        Tree::Or(l, r) => match (state_of(*l), state_of(*r)) {
            (Some(a), Some(b)) => Some(
                Pctl::Not(
                    Box::new(
                        Pctl::And(
                            Box::new(Pctl::Not(Box::new(a))),
                            Box::new(Pctl::Not(Box::new(b))),
                        ),
                    ),
                ),
            ),
            _ => None,
        },
        Tree::Prob(x, comp, q) => if q > ONE {
            None
        } else {
            match *x {
                Tree::Alw(y) => match state_of(*y) {
                    Some(p) => Some(
                        Pctl::Prob(
                            Box::new(
                                PctlPath::Until(
                                    Box::new(Pctl::True),
                                    Box::new(Pctl::Not(Box::new(p))),
                                ),
                            ),
                            flipped(comp),
                            (ONE - q) as u64,
                        ),
                    ),
                    None => None,
                },
                _ => match path_of(*x) {
                    Some(p) => Some(Pctl::Prob(Box::new(p), comp, q)),
                    None => None,
                },
            }
        },
        _ => None,
    }
}

/// The reader of PCTL queries.
#[derive(Debug, Default)]
pub struct PctlImpl;

impl PctlImpl {
    /// The state formula that a syntax tree stands for.
    pub fn parse_state(pair: &Syntax) -> (res: Result<StatePhi, Error>)
        ensures
            match state_of(pair@) {
                Some(p) => res matches Ok(x) && x.model() == p,
                None => res matches Err(e) && e is Parse,
            },
        decreases pair, 1int,
    {
        proof {
            reveal_with_fuel(Syntax::model, 3);
            reveal_with_fuel(StatePhi::model, 4);
            reveal_with_fuel(PathPhi::model, 4);
        }
        match pair {
            Syntax::True => Ok(StatePhi::True(True)),
            Syntax::False => Ok(StatePhi::Not(NotPhi { phi: Box::new(StatePhi::True(True)) })),
            Syntax::Ap(name) => Ok(StatePhi::AP(AP { value: name.clone() })),
            Syntax::Not(x) => match Self::parse_state(x) {
                Ok(inner_phi) => Ok(StatePhi::Not(NotPhi { phi: Box::new(inner_phi) })),
                Err(e) => Err(e),
            },
            Syntax::And(l, r) => {
                let left_rule = match Self::parse_state(l) {
                    Ok(x) => x,
                    Err(e) => {
                        return Err(e);
                    },
                };
                let right_rule = match Self::parse_state(r) {
                    Ok(x) => x,
                    Err(e) => {
                        return Err(e);
                    },
                };
                Ok(StatePhi::And(AndPhi { left_phi: Box::new(left_rule), right_phi: Box::new(right_rule) }))
            },
            Syntax::Or(l, r) => {
                let left_rule = match Self::parse_state(l) {
                    Ok(x) => x,
                    Err(e) => {
                        return Err(e);
                    },
                };
                let right_rule = match Self::parse_state(r) {
                    Ok(x) => x,
                    Err(e) => {
                        return Err(e);
                    },
                };
                Ok(
                    StatePhi::Not(
                        NotPhi {
                            phi: Box::new(
                                StatePhi::And(
                                    AndPhi {
                                        left_phi: Box::new(
                                            StatePhi::Not(NotPhi { phi: Box::new(left_rule) }),
                                        ),
                                        right_phi: Box::new(
                                            StatePhi::Not(NotPhi { phi: Box::new(right_rule) }),
                                        ),
                                    },
                                ),
                            ),
                        },
                    ),
                )
            },
            Syntax::Prob(x, comp, q) => {
                if *q > ONE {
                    return Err(Error::Parse);
                }
                match &**x {
                    Syntax::Alw(y) => {
                        let inner_state_phi = match Self::parse_state(y) {
                            Ok(x) => x,
                            Err(e) => {
                                return Err(e);
                            },
                        };
                        let flipped_comp = match comp {
                            Comp::Less => Comp::Greater,
                            Comp::Leq => Comp::Geq,
                            Comp::Greater => Comp::Less,
                            Comp::Geq => Comp::Leq,
                        };
                        Ok(
                            StatePhi::Prob(
                                Prob {
                                    phi: Box::new(
                                        PathPhi::Until(
                                            Until {
                                                prev: Box::new(StatePhi::True(True)),
                                                until: Box::new(
                                                    StatePhi::Not(
                                                        NotPhi { phi: Box::new(inner_state_phi) },
                                                    ),
                                                ),
                                            },
                                        ),
                                    ),
                                    comp: flipped_comp,
                                    probability: ONE - *q,
                                },
                            ),
                        )
                    },
                    _ => match Self::parse_path(x) {
                        Ok(inner_phi) => Ok(
                            StatePhi::Prob(
                                Prob { phi: Box::new(inner_phi), comp: *comp, probability: *q },
                            ),
                        ),
                        Err(e) => Err(e),
                    },
                }
            },
            _ => Err(Error::Parse),
        }
    }

    /// The path formula that a syntax tree stands for below a probability
    /// bound.
    pub fn parse_path(pair: &Syntax) -> (res: Result<PathPhi, Error>)
        ensures
            match path_of(pair@) {
                Some(p) => res matches Ok(x) && x.model() == p,
                None => res matches Err(e) && e is Parse,
            },
        decreases pair, 0int,
    {
        match pair {
            Syntax::Next(x) => match Self::parse_state(x) {
                Ok(inner_phi) => Ok(PathPhi::Next(Next { phi: Box::new(inner_phi) })),
                Err(e) => Err(e),
            },
            Syntax::Until(l, r) => {
                let left_phi = match Self::parse_state(l) {
                    Ok(x) => x,
                    Err(e) => {
                        return Err(e);
                    },
                };
                let right_phi = match Self::parse_state(r) {
                    Ok(x) => x,
                    Err(e) => {
                        return Err(e);
                    },
                };
                Ok(PathPhi::Until(Until { prev: Box::new(left_phi), until: Box::new(right_phi) }))
            },
            Syntax::Ev(x) => match Self::parse_state(x) {
                Ok(inner_phi) => Ok(
                    PathPhi::Until(
                        Until { prev: Box::new(StatePhi::True(True)), until: Box::new(inner_phi) },
                    ),
                ),
                Err(e) => Err(e),
            },
            _ => Err(Error::Parse),
        }
    }
}

} // verus!
