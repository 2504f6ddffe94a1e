//! Markov decision processes: state nodes, action nodes and weighted edges.

use crate::comp::ONE;
use crate::error::Error;
use crate::graph::{
    graph_add_edge, graph_add_node, graph_edge_count, graph_edge_endpoints, graph_edge_weight,
    graph_edges, graph_new, graph_node_count, graph_node_weight, graph_nodes,
};
use petgraph::graph::Graph;
use petgraph::Directed;
use vstd::prelude::*;

verus! {

/// A node of a decision process: a state with its identifier, or an action
/// with its label.
#[derive(Debug, PartialEq, Eq)]
pub enum Node<T> {
    State(T),
    Action(String),
}

impl<T> Node<T> {
    /// Whether the node is a state.
    pub fn is_state(&self) -> (res: bool)
        ensures
            res == (self is State),
    {
        match self {
            Node::State(_) => true,
            Node::Action(_) => false,
        }
    }
}

/// An edge with its weight in parts per billion.
#[derive(Debug, Clone, Copy, PartialEq, Eq, Structural)]
pub struct Edge {
    pub source: usize,
    pub target: usize,
    pub weight: u64,
}

/// What a decision process is, mathematically: which nodes are states, and
/// the edges in the order in which they were added.
pub struct MdpView {
    pub states: Seq<bool>,
    pub edges: Seq<Edge>,
}

impl MdpView {
    pub open spec fn node_count(self) -> int {
        self.states.len() as int
    }

    pub open spec fn is_node(self, i: int) -> bool {
        0 <= i < self.states.len()
    }

    pub open spec fn is_state(self, i: int) -> bool {
        self.is_node(i) && self.states[i]
    }

    pub open spec fn is_action(self, i: int) -> bool {
        self.is_node(i) && !self.states[i]
    }

    /// The set of all state nodes.
    pub open spec fn state_set(self) -> Set<int> {
        Set::new(|i: int| self.is_state(i))
    }

    /// An edge fits: it joins a state and an action in either direction,
    /// weighs at most one, and exactly one where it leaves a state.
    pub open spec fn edge_ok(self, e: Edge) -> bool {
        &&& self.is_node(e.source as int)
        &&& self.is_node(e.target as int)
        &&& self.states[e.source as int] != self.states[e.target as int]
        &&& e.weight <= ONE
        &&& (self.states[e.source as int] ==> e.weight == ONE)
    }

    /// The graph is bipartite between states and actions, with weights as
    /// `edge_ok` asks.
    pub open spec fn wf(self) -> bool {
        forall|e: int| 0 <= e < self.edges.len() ==> self.edge_ok(#[trigger] self.edges[e])
    }

    /// The sum of the weights of those among the first `k` edges that leave
    /// node `a`.
    pub open spec fn out_sum(self, a: int, k: int) -> int
        decreases k,
    {
        if k <= 0 {
            0
        } else {
            self.out_sum(a, k - 1) + if self.edges[k - 1].source == a {
                self.edges[k - 1].weight as int
            } else {
                0
            }
        }
    }

    /// The total weight that leaves node `a`.
    pub open spec fn out_weight(self, a: int) -> int {
        self.out_sum(a, self.edges.len() as int)
    }

    /// The weights that leave action `a` add up to one, give or take `tol`.
    pub open spec fn sums_to_one(self, a: int, tol: int) -> bool {
        ONE - tol <= self.out_weight(a) <= ONE + tol
    }

    /// Every action's weights add up to one, give or take `tol`.
    pub open spec fn stochastic(self, tol: int) -> bool {
        forall|a: int| self.is_action(a) ==> #[trigger] self.sums_to_one(a, tol)
    }

    pub proof fn lemma_out_sum_bound(self, a: int, k: int)
        requires
            self.wf(),
            0 <= k <= self.edges.len(),
        ensures
            0 <= self.out_sum(a, k) <= k * ONE,
        decreases k,
    {
        if k > 0 {
            self.lemma_out_sum_bound(a, k - 1);
            assert(self.edge_ok(self.edges[k - 1]));
            assert((k - 1) * ONE + ONE == k * ONE) by (nonlinear_arith);
        }
    }
}

/// Ten to the power `9 - p`, and zero beyond nine digits: the slack, in
/// parts per billion, of weights that were rounded to `p` decimal digits.
pub open spec fn tolerance_of(p: int) -> int {
    if p <= 0 {
        1_000_000_000
    } else if p == 1 {
        100_000_000
    } else if p == 2 {
        10_000_000
    } else if p == 3 {
        1_000_000
    } else if p == 4 {
        100_000
    } else if p == 5 {
        10_000
    } else if p == 6 {
        1_000
    } else if p == 7 {
        100
    } else if p == 8 {
        10
    } else if p == 9 {
        1
    } else {
        0
    }
}

/// The slack that `precision` decimal digits allow, in parts per billion.
pub fn tolerance(precision: u32) -> (tol: u64)
    ensures
        tol == tolerance_of(precision as int),
{
    let mut tol: u64 = 1_000_000_000;
    let mut i: u32 = 0;
    while i < precision && tol > 0
        invariant
            i <= precision,
            tol == tolerance_of(i as int),
            tol == 0 ==> i > 9,
        decreases tol,
    {
        tol = tol / 10;
        i = i + 1;
    }
    tol
}

/// A Markov decision process. State nodes and action nodes share one index
/// space in the order in which they were added; a state is identified by its
/// index, an action carries a label.
pub struct Mdp {
    graph: Graph<u64, u64, Directed, usize>,
    labels: Vec<String>,
}

impl View for Mdp {
    type V = MdpView;

    closed spec fn view(&self) -> MdpView {
        MdpView {
            states: graph_nodes(self.graph).map_values(|w: u64| w == 1),
            edges: graph_edges(self.graph).map_values(
                |t: (usize, usize, u64)| Edge { source: t.0, target: t.1, weight: t.2 },
            ),
        }
    }
}

impl Mdp {
    /// The labels are in step with the nodes. This is kept by every method.
    pub closed spec fn labelled(&self) -> bool {
        self.labels@.len() == graph_nodes(self.graph).len()
    }

    /// The label of node `i`: empty for a state.
    pub closed spec fn label_of(&self, i: int) -> Seq<char> {
        self.labels@[i]@
    }

    /// The invariant of the type.
    pub open spec fn wf(&self) -> bool {
        self.labelled() && self@.wf()
    }

    /// The process without nodes.
    pub fn new() -> (m: Mdp)
        ensures
            m.wf(),
            m@.states.len() == 0,
            m@.edges.len() == 0,
    {
        Mdp { graph: graph_new(), labels: Vec::new() }
    }

    /// The number of nodes, states and actions together.
    pub fn node_count(&self) -> (n: usize)
        requires
            self.wf(),
        ensures
            n == self@.states.len(),
    {
        graph_node_count(&self.graph)
    }

    /// The number of edges.
    pub fn edge_count(&self) -> (n: usize)
        requires
            self.wf(),
        ensures
            n == self@.edges.len(),
    {
        graph_edge_count(&self.graph)
    }

    /// Adds a state node and returns its index.
    pub fn add_state(&mut self) -> (i: usize)
        requires
            old(self).wf(),
        ensures
            final(self).wf(),
            i == old(self)@.states.len(),
            final(self)@.states == old(self)@.states.push(true),
            final(self)@.edges == old(self)@.edges,
            forall|j: int| 0 <= j < i ==> final(self).label_of(j) == old(self).label_of(j),
            final(self).label_of(i as int) == Seq::<char>::empty(),
    {
        let i = graph_add_node(&mut self.graph, 1);
        self.labels.push(String::new());
        assert(self@.states =~= old(self)@.states.push(true));
        assert(self@.edges =~= old(self)@.edges);
        assert forall|e: int| 0 <= e < self@.edges.len() implies self@.edge_ok(
            #[trigger] self@.edges[e],
        ) by {
            assert(old(self)@.edge_ok(old(self)@.edges[e]));
        }
        i
    }

    /// Adds an action node with its label and returns its index.
    pub fn add_action(&mut self, label: String) -> (i: usize)
        requires
            old(self).wf(),
        ensures
            final(self).wf(),
            i == old(self)@.states.len(),
            final(self)@.states == old(self)@.states.push(false),
            final(self)@.edges == old(self)@.edges,
            forall|j: int| 0 <= j < i ==> final(self).label_of(j) == old(self).label_of(j),
            final(self).label_of(i as int) == label@,
    {
        let i = graph_add_node(&mut self.graph, 0);
        self.labels.push(label);
        assert(self@.states =~= old(self)@.states.push(false));
        assert(self@.edges =~= old(self)@.edges);
        assert forall|e: int| 0 <= e < self@.edges.len() implies self@.edge_ok(
            #[trigger] self@.edges[e],
        ) by {
            assert(old(self)@.edge_ok(old(self)@.edges[e]));
        }
        i
    }

    /// Adds an edge. It is refused, and the process left as it was, unless
    /// the edge joins a state and an action of the process, weighs at most
    /// one, and weighs one where it leaves a state.
    pub fn add_edge(&mut self, source: usize, target: usize, weight: u64) -> (res: Result<
        usize,
        Error,
    >)
        requires
            old(self).wf(),
        ensures
            final(self).wf(),
            final(self)@.states == old(self)@.states,
            forall|j: int|
                0 <= j < old(self)@.states.len() ==> final(self).label_of(j) == old(self).label_of(
                    j,
                ),
            old(self)@.edge_ok(Edge { source, target, weight }) ==> res == Ok::<usize, Error>(
                old(self)@.edges.len() as usize,
            ) && final(self)@.edges == old(self)@.edges.push(Edge { source, target, weight }),
            !old(self)@.edge_ok(Edge { source, target, weight }) ==> res == Err::<usize, Error>(
                Error::GraphInvariantViolation,
            ) && final(self)@.edges == old(self)@.edges,
    {
        let n = graph_node_count(&self.graph);
        if source >= n || target >= n || weight > ONE {
            return Err(Error::GraphInvariantViolation);
        }
        let from_state = graph_node_weight(&self.graph, source) == 1;
        let to_state = graph_node_weight(&self.graph, target) == 1;
        if from_state == to_state || (from_state && weight != ONE) {
            return Err(Error::GraphInvariantViolation);
        }
        let e = graph_add_edge(&mut self.graph, source, target, weight);
        assert(self@.edges =~= old(self)@.edges.push(Edge { source, target, weight }));
        assert(self@.states =~= old(self)@.states);
        Ok(e)
    }

    /// Whether node `i` is a state.
    pub fn is_state(&self, i: usize) -> (res: bool)
        requires
            self.wf(),
            i < self@.states.len(),
        ensures
            res == self@.states[i as int],
    {
        graph_node_weight(&self.graph, i) == 1
    }

    /// Node `i`: a state with its index, or an action with its label.
    pub fn node(&self, i: usize) -> (res: Node<usize>)
        requires
            self.wf(),
            i < self@.states.len(),
        ensures
            self@.states[i as int] ==> res == Node::<usize>::State(i),
            !self@.states[i as int] ==> (res matches Node::Action(l) && l@ == self.label_of(i as int)),
    {
        if graph_node_weight(&self.graph, i) == 1 {
            Node::State(i)
        } else {
            Node::Action(self.labels[i].clone())
        }
    }

    /// Edge `e`.
    pub fn edge(&self, e: usize) -> (res: Edge)
        requires
            self.wf(),
            e < self@.edges.len(),
        ensures
            res == self@.edges[e as int],
            self@.edge_ok(res),
    {
        let (source, target) = graph_edge_endpoints(&self.graph, e);
        let weight = graph_edge_weight(&self.graph, e);
        Edge { source, target, weight }
    }

    /// The total weight that leaves node `a`.
    pub fn out_weight(&self, a: usize) -> (sum: u128)
        requires
            self.wf(),
        ensures
            sum == self@.out_weight(a as int),
            sum <= usize::MAX * ONE,
    {
        let m = self.edge_count();
        let mut sum: u128 = 0;
        let mut e: usize = 0;
        while e < m
            invariant
                self.wf(),
                m == self@.edges.len(),
                e <= m,
                sum == self@.out_sum(a as int, e as int),
            decreases m - e,
        {
            let ed = self.edge(e);
            proof {
                self@.lemma_out_sum_bound(a as int, e as int);
                assert(e * ONE <= usize::MAX * ONE) by (nonlinear_arith)
                    requires
                        e <= usize::MAX,
                ;
            }
            if ed.source == a {
                sum = sum + (ed.weight as u128);
            }
            e = e + 1;
        }
        proof {
            self@.lemma_out_sum_bound(a as int, m as int);
            assert(m * ONE <= usize::MAX * ONE) by (nonlinear_arith)
                requires
                    m <= usize::MAX,
            ;
        }
        sum
    }

    /// Checks that the weights that leave each action add up to one, give
    /// or take the slack of `precision` decimal digits.
    pub fn validate(&self, precision: u32) -> (res: Result<(), Error>)
        requires
            self.wf(),
        ensures
            self@.stochastic(tolerance_of(precision as int)) ==> res == Ok::<(), Error>(()),
            !self@.stochastic(tolerance_of(precision as int)) ==> res == Err::<(), Error>(
                Error::GraphInvariantViolation,
            ),
    {
        let tol = tolerance(precision);
        let n = self.node_count();
        let mut a: usize = 0;
        while a < n
            invariant
                self.wf(),
                n == self@.states.len(),
                a <= n,
                tol == tolerance_of(precision as int),
                tol <= ONE,
                forall|b: int| 0 <= b < a && self@.is_action(b) ==> #[trigger] self@.sums_to_one(b, tol as int),
            decreases n - a,
        {
            if !self.is_state(a) {
                let sum = self.out_weight(a);
                if sum + (tol as u128) < (ONE as u128) || sum > (ONE as u128) + (tol as u128) {
                    assert(self@.is_action(a as int) && !self@.sums_to_one(a as int, tol as int));
                    return Err(Error::GraphInvariantViolation);
                }
            }
            a = a + 1;
        }
        Ok(())
    }
}

} // verus!
