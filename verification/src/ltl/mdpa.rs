//! The product of a decision process with a deterministic Rabin automaton,
//! and the accepting end components of the product.

use crate::comp::ONE;
use crate::graph::{
    graph_add_edge, graph_add_node, graph_edges, graph_new, graph_nodes, graph_scc, has_edge,
    is_walk, listed, reaches, strongly_connected,
};
use crate::fixpoint::{count, lemma_count_bound, lemma_count_less};
use crate::listset::{member, occurs, Element};
use crate::ltl::common::Alphabet;
use crate::ltl::formula::{Ltl, PhiOp, AP};
use crate::ltl::safra::{step, DRA};
use crate::mdp::{Edge, Mdp, MdpView, Node};
use crate::pctl::PctlInfo;
use petgraph::graph::Graph;
use petgraph::Directed;
use vstd::prelude::*;

verus! {

/// The product of a decision process with an automaton. A state node
/// stands for a state of the process together with a state of the
/// automaton; an action node is a copy of an action of the process.
pub struct Product {
    pub mdp: Mdp,
    /// For each state node, the state of the process and the state of the
    /// automaton; for an action node, the state node below which it hangs
    /// and the number of the edge of the process that leads to the action.
    pub pairs: Vec<(usize, usize)>,
    pub initial: usize,
}

impl Product {
    /// The product is in order with respect to a process of `n` nodes and
    /// an automaton of `m` states.
    pub open spec fn wf(&self, g: MdpView, m: int) -> bool {
        &&& self.mdp.wf()
        &&& self.pairs@.len() == self.mdp@.states.len()
        &&& self.mdp@.is_state(self.initial as int)
        &&& forall|i: int|
            0 <= i < self.pairs@.len() && self.mdp@.states[i] ==> g.is_state(
                (#[trigger] self.pairs@[i]).0 as int,
            ) && self.pairs@[i].1 < m
    }
}

/// Proposition `name` holds at `state`.
pub open spec fn holds_at(ap: Map<Seq<char>, Set<int>>, name: Seq<char>, state: int) -> bool {
    ap.dom().contains(name) && ap[name].contains(state)
}

/// The label of a state: the propositions that hold at it.
pub open spec fn label_at(ap: Map<Seq<char>, Set<int>>, state: int) -> Set<Ltl> {
    Set::new(
        |f: Ltl|
            match f {
                Ltl::AP(name) => holds_at(ap, name, state),
                _ => false,
            },
    )
}

/// The label of a state of the process: the propositions that hold at it.
pub fn label_of(pctl_info: &PctlInfo, state: usize) -> (res: Alphabet)
    requires
        pctl_info.wf(),
    ensures
        res@ == label_at(pctl_info.ap_map@, state as int),
{
    let names = pctl_info.ap_map.names_at(state);
    let ghost ap = pctl_info.ap_map@;
    let mut list: Vec<PhiOp> = Vec::new();
    let mut i: usize = 0;
    while i < names.len()
        invariant
            i <= names@.len(),
            list@.len() == i,
            forall|k: int| 0 <= k < i ==> (#[trigger] list@[k])@ == Ltl::AP(names@[k]@),
        decreases names@.len() - i,
    {
        list.push(PhiOp::AP(AP { value: names[i].clone() }));
        i = i + 1;
    }
    let res = Alphabet(list);
    proof {
        assert forall|f: Ltl| res@.contains(f) <==> label_at(ap, state as int).contains(f) by {
            if res@.contains(f) {
                let k = choose|k: int| 0 <= k < res.0@.len() && (#[trigger] res.0@[k]).elem() == f;
                assert(res.0@[k]@ == Ltl::AP(names@[k]@));
                assert(ap.dom().contains(names@[k]@) && ap[names@[k]@].contains(state as int));
            }
            if label_at(ap, state as int).contains(f) {
                match f {
                    Ltl::AP(name) => {
                        assert(crate::pctl::named(names@, name));
                        let k = choose|k: int| 0 <= k < names@.len() && (#[trigger] names@[k])@ == name;
                        assert(res.0@[k].elem() == f);
                        assert(occurs(res.0@, f));
                    },
                    _ => {},
                }
            }
        }
        assert(res@ =~= label_at(ap, state as int));
    }
    res
}

/// The state of the automaton after a step from state `q` of the
/// automaton that is taken as state `s` of the process is left.
pub open spec fn next_state(dra: &DRA, ap: Map<Seq<char>, Set<int>>, q: int, s: int) -> usize {
    step(dra.trans_f@[q]@, Some(label_at(ap, s)))
}

/// The process `b` is the process `a` with more nodes and edges.
pub open spec fn grown_from(a: MdpView, b: MdpView) -> bool {
    &&& a.states.len() <= b.states.len()
    &&& a.edges.len() <= b.edges.len()
    &&& forall|i: int| 0 <= i < a.states.len() ==> #[trigger] b.states[i] == a.states[i]
    &&& forall|e: int| 0 <= e < a.edges.len() ==> #[trigger] b.edges[e] == a.edges[e]
}

/// The list `b` is the list `a` with more members.
pub open spec fn longer(a: Seq<(usize, usize)>, b: Seq<(usize, usize)>) -> bool {
    a.len() <= b.len() && forall|i: int| 0 <= i < a.len() ==> #[trigger] b[i] == a[i]
}

/// An edge leads from `a` to `b` with weight `w`.
pub open spec fn joined(pv: MdpView, a: int, b: int, w: u64) -> bool {
    exists|x: int|
        0 <= x < pv.edges.len() && (#[trigger] pv.edges[x]).source == a && pv.edges[x].target == b
            && pv.edges[x].weight == w
}

/// Action node `a` is a copy: it names a state node before it and an edge
/// of the process that leaves the state of that node, and an edge of
/// weight one leads from the state node to it.
pub open spec fn copied(pv: MdpView, pairs: Seq<(usize, usize)>, g: MdpView, a: int) -> bool {
    let i = pairs[a].0 as int;
    let e1 = pairs[a].1 as int;
    &&& 0 <= i < a
    &&& pv.states[i]
    &&& 0 <= e1 < g.edges.len()
    &&& g.edges[e1].source == pairs[i].0
    &&& joined(pv, i, a, ONE)
}

/// Edge `x`, which leaves action node `a`, copies an outcome of the action
/// of which `a` is a copy: it has the weight of the outcome and leads to the
/// node of the outcome's state together with the next state of the
/// automaton.
pub open spec fn outcome_of(
    pv: MdpView,
    pairs: Seq<(usize, usize)>,
    g: MdpView,
    dra: &DRA,
    ap: Map<Seq<char>, Set<int>>,
    a: int,
    x: int,
) -> bool {
    let i = pairs[a].0 as int;
    let e1 = pairs[a].1 as int;
    let j = pv.edges[x].target as int;
    &&& pv.states[j]
    &&& pairs[j].1 == next_state(dra, ap, pairs[i].1 as int, pairs[i].0 as int)
    &&& exists|e2: int|
        0 <= e2 < g.edges.len() && (#[trigger] g.edges[e2]).source == g.edges[e1].target
            && g.edges[e2].target == pairs[j].0 && g.edges[e2].weight == pv.edges[x].weight
}

/// Edge `x` is as it must be: from a state node it leads to a copy that was
/// made for that node, and from an action node it copies an outcome.
pub open spec fn edge_sound(
    pv: MdpView,
    pairs: Seq<(usize, usize)>,
    g: MdpView,
    dra: &DRA,
    ap: Map<Seq<char>, Set<int>>,
    x: int,
) -> bool {
    let e = pv.edges[x];
    if pv.states[e.source as int] {
        !pv.states[e.target as int] && pairs[e.target as int].0 == e.source
    } else {
        outcome_of(pv, pairs, g, dra, ap, e.source as int, x)
    }
}

/// Each of the first `upto` edges of the process that is an outcome of the
/// action of which `a` is a copy has its copy, and the weights that leave
/// `a` add up to the weights of those outcomes.
pub open spec fn outcomes_copied(
    pv: MdpView,
    pairs: Seq<(usize, usize)>,
    g: MdpView,
    a: int,
    upto: int,
) -> bool {
    let action = g.edges[pairs[a].1 as int].target as int;
    &&& pv.out_weight(a) == g.out_sum(action, upto)
    &&& forall|e2: int|
        0 <= e2 < upto && (#[trigger] g.edges[e2]).source == action ==> exists|x: int|
            0 <= x < pv.edges.len() && (#[trigger] pv.edges[x]).source == a
                && pairs[pv.edges[x].target as int].0 == g.edges[e2].target && pv.edges[x].weight
                == g.edges[e2].weight
}

/// Each of the first `upto` edges of the process that leaves the state of
/// state node `i` has its copy.
pub open spec fn actions_copied(
    pv: MdpView,
    pairs: Seq<(usize, usize)>,
    g: MdpView,
    i: int,
    upto: int,
) -> bool {
    forall|e1: int|
        0 <= e1 < upto && (#[trigger] g.edges[e1]).source == pairs[i].0 ==> exists|a: int|
            0 <= a < pv.states.len() && !pv.states[a] && #[trigger] pairs[a] == (i as usize, e1 as usize)
}

/// No two state nodes stand for the same.
pub open spec fn apart(pv: MdpView, pairs: Seq<(usize, usize)>) -> bool {
    forall|i: int, j: int|
        0 <= i < j < pv.states.len() && pv.states[i] && pv.states[j] ==> #[trigger] pairs[i]
            != #[trigger] pairs[j]
}

/// Node `j` is entered from a state node before it: an edge leads to it
/// from an action node that hangs below a state node with a smaller number.
pub open spec fn entered(pv: MdpView, pairs: Seq<(usize, usize)>, j: int) -> bool {
    exists|x: int|
        0 <= x < pv.edges.len() && (#[trigger] pv.edges[x]).target == j && !pv.states[pv.edges[x].source as int]
            && pairs[pv.edges[x].source as int].0 < j
}

/// What holds of the product while it is built: the state nodes below
/// `head` have their actions copied, every action node is a finished copy,
/// every edge is as it must be, and every state node but the first is
/// entered from a state node before it.
pub open spec fn growing(
    pv: MdpView,
    pairs: Seq<(usize, usize)>,
    g: MdpView,
    dra: &DRA,
    ap: Map<Seq<char>, Set<int>>,
    head: int,
) -> bool {
    &&& pairs.len() == pv.states.len()
    &&& apart(pv, pairs)
    &&& forall|a: int| 0 <= a < pv.states.len() && !pv.states[a] ==> #[trigger] copied(pv, pairs, g, a)
    &&& forall|a: int|
        0 <= a < pv.states.len() && !pv.states[a] ==> #[trigger] outcomes_copied(
            pv,
            pairs,
            g,
            a,
            g.edges.len() as int,
        )
    &&& forall|x: int| 0 <= x < pv.edges.len() ==> #[trigger] edge_sound(pv, pairs, g, dra, ap, x)
    &&& forall|i: int|
        0 <= i < head && i < pv.states.len() && pv.states[i] ==> #[trigger] actions_copied(
            pv,
            pairs,
            g,
            i,
            g.edges.len() as int,
        )
    &&& forall|j: int| 1 <= j < pv.states.len() && pv.states[j] ==> #[trigger] entered(pv, pairs, j)
}

/// The labels of the copies are those of the actions.
pub open spec fn labels_copied(product: &Product, pctl_info: &PctlInfo) -> bool {
    forall|a: int|
        0 <= a < product.pairs@.len() && !product.mdp@.states[a] ==> #[trigger] product.mdp.label_of(a)
            == pctl_info.reach_graph.label_of(
            pctl_info.reach_graph@.edges[product.pairs@[a].1 as int].target as int,
        )
}

/// No two action nodes are copies of the same action below the same node.
pub open spec fn copies_apart(pv: MdpView, pairs: Seq<(usize, usize)>) -> bool {
    forall|a: int, b: int|
        0 <= a < b < pv.states.len() && !pv.states[a] && !pv.states[b] ==> #[trigger] pairs[a]
            != #[trigger] pairs[b]
}

/// Every action node hangs below a state node before `head`, or below
/// `head` itself and copies an action that one of the first `upto` edges of
/// the process leads to.
pub open spec fn copies_before(pv: MdpView, pairs: Seq<(usize, usize)>, head: int, upto: int) -> bool {
    forall|a: int|
        0 <= a < pv.states.len() && !pv.states[a] ==> (#[trigger] pairs[a]).0 < head || (pairs[a].0
            == head && pairs[a].1 < upto)
}

impl Product {
    /// The product is that of the process with the automaton: its first
    /// node stands for the initial states of both; no two state nodes stand
    /// for the same; below each state node hangs one copy of each action of
    /// its state of the process, with the action's label; a copy has the
    /// outcomes of the action, with their weights, each leading to the node
    /// of the outcome's state and of the next state of the automaton; there
    /// are no other edges; and every state node but the first is entered
    /// from a state node before it, so that every state node is reached from
    /// the first.
    pub open spec fn is_product_of(&self, pctl_info: &PctlInfo, dra: &DRA) -> bool {
        let g = pctl_info.reach_graph@;
        &&& self.wf(g, dra.size())
        &&& self.initial == 0
        &&& self.pairs@[0] == (pctl_info.initial_marking, dra.initial)
        &&& growing(
            self.mdp@,
            self.pairs@,
            g,
            dra,
            pctl_info.ap_map@,
            self.mdp@.states.len() as int,
        )
        &&& copies_apart(self.mdp@, self.pairs@)
        &&& labels_copied(self, pctl_info)
    }
}

/// All nodes of a process count as left.
pub open spec fn all_left(pv: MdpView) -> Seq<bool> {
    Seq::new(pv.states.len(), |i: int| true)
}

/// Every state node of the product is reached from the first node.
pub proof fn product_states_are_reached(product: &Product, pctl_info: &PctlInfo, dra: &DRA, j: int)
    requires
        product.is_product_of(pctl_info, dra),
        0 <= j < product.mdp@.states.len(),
        product.mdp@.states[j],
    ensures
        reached_within(product.mdp@, all_left(product.mdp@), 0, j),
    decreases j,
{
    let pv = product.mdp@;
    let pairs = product.pairs@;
    let g = pctl_info.reach_graph@;
    let alive = all_left(pv);
    if j == 0 {
        assert(walk_within(pv, alive, seq![0int], 0, 0));
    } else {
        assert(entered(pv, pairs, j));
        let x = choose|x: int|
            0 <= x < pv.edges.len() && (#[trigger] pv.edges[x]).target == j && !pv.states[pv.edges[x].source as int]
                && pairs[pv.edges[x].source as int].0 < j;
        assert(pv.edge_ok(pv.edges[x]));
        let a = pv.edges[x].source as int;
        let i = pairs[a].0 as int;
        assert(copied(pv, pairs, g, a));
        let y = choose|y: int|
            0 <= y < pv.edges.len() && (#[trigger] pv.edges[y]).source == i && pv.edges[y].target == a
                && pv.edges[y].weight == ONE;
        product_states_are_reached(product, pctl_info, dra, i);
        let before = choose|path: Seq<int>| walk_within(pv, alive, path, 0, i);
        let path = before.push(a).push(j);
        let n = before.len() as int;
        assert(step_within(pv, alive, i, a)) by {
            assert(pv.edges[y].source == i && pv.edges[y].target == a);
        }
        assert(step_within(pv, alive, a, j)) by {
            assert(pv.edges[x].source == a && pv.edges[x].target == j);
        }
        assert forall|k: int| 0 <= k < path.len() - 1 implies #[trigger] step_within(
            pv,
            alive,
            path[k],
            path[k + 1],
        ) by {
            if k < n - 1 {
                assert(path[k] == before[k]);
                assert(path[k + 1] == before[k + 1]);
                assert(step_within(pv, alive, before[k], before[k + 1]));
            } else if k == n - 1 {
                assert(path[k] == i);
                assert(path[k + 1] == a);
            } else {
                assert(path[k] == a);
                assert(path[k + 1] == j);
            }
        }
        assert(walk_within(pv, alive, path, 0, j));
    }
}

/// The weights that leave an action of the product add up to what the
/// weights of the action of the process add up to. So the product of a
/// process whose actions' weights add up to one, give or take `tol`, has such
/// actions too.
pub proof fn product_keeps_weights(product: &Product, pctl_info: &PctlInfo, dra: &DRA, tol: int)
    requires
        pctl_info.reach_graph@.wf(),
        product.is_product_of(pctl_info, dra),
        pctl_info.reach_graph@.stochastic(tol),
    ensures
        product.mdp@.stochastic(tol),
{
    let g = pctl_info.reach_graph@;
    let pv = product.mdp@;
    let pairs = product.pairs@;
    assert forall|a: int| pv.is_action(a) implies #[trigger] pv.sums_to_one(a, tol) by {
        assert(copied(pv, pairs, g, a));
        assert(outcomes_copied(pv, pairs, g, a, g.edges.len() as int));
        let i = pairs[a].0 as int;
        let e1 = pairs[a].1 as int;
        assert(g.is_state(pairs[i].0 as int));
        assert(g.edge_ok(g.edges[e1]));
        let action = g.edges[e1].target as int;
        assert(g.is_action(action));
        assert(g.sums_to_one(action, tol));
    }
}

/// The weights that leave a node stay where an edge from another node is
/// added.
pub proof fn lemma_out_sum_push(pv: MdpView, e: Edge, a: int, k: int)
    requires
        0 <= k <= pv.edges.len(),
    ensures
        (MdpView { states: pv.states, edges: pv.edges.push(e) }).out_sum(a, k) == pv.out_sum(a, k),
    decreases k,
{
    if k > 0 {
        lemma_out_sum_push(pv, e, a, k - 1);
    }
}

/// The weights that leave a node are the same in a process that has grown
/// by edges from other nodes.
pub proof fn lemma_out_sum_grown(old: MdpView, new: MdpView, a: int, k: int)
    requires
        grown_from(old, new),
        0 <= k <= new.edges.len(),
        forall|x: int| old.edges.len() <= x < new.edges.len() ==> (#[trigger] new.edges[x]).source != a,
    ensures
        new.out_sum(a, k) == old.out_sum(a, if k <= old.edges.len() {
            k
        } else {
            old.edges.len() as int
        }),
    decreases k,
{
    if k > 0 {
        lemma_out_sum_grown(old, new, a, k - 1);
    }
}

/// What holds of the product stays where it grows by nodes and by edges
/// that leave new nodes or state nodes.
pub proof fn lemma_growing_kept(
    old: MdpView,
    old_pairs: Seq<(usize, usize)>,
    new: MdpView,
    pairs: Seq<(usize, usize)>,
    g: MdpView,
    dra: &DRA,
    ap: Map<Seq<char>, Set<int>>,
    head: int,
)
    requires
        old.wf(),
        new.wf(),
        growing(old, old_pairs, g, dra, ap, head),
        grown_from(old, new),
        longer(old_pairs, pairs),
        pairs.len() == new.states.len(),
        forall|x: int|
            old.edges.len() <= x < new.edges.len() ==> old.states[(#[trigger] new.edges[x]).source as int]
                || new.edges[x].source >= old.states.len(),
    ensures
        forall|a: int| 0 <= a < old.states.len() && !old.states[a] ==> #[trigger] copied(new, pairs, g, a),
        forall|a: int|
            0 <= a < old.states.len() && !old.states[a] ==> #[trigger] outcomes_copied(
                new,
                pairs,
                g,
                a,
                g.edges.len() as int,
            ),
        forall|x: int| 0 <= x < old.edges.len() ==> #[trigger] edge_sound(new, pairs, g, dra, ap, x),
        forall|i: int|
            0 <= i < head && i < old.states.len() && old.states[i] ==> #[trigger] actions_copied(
                new,
                pairs,
                g,
                i,
                g.edges.len() as int,
            ),
        forall|i: int, k: int|
            0 <= i < old.states.len() && old.states[i] && actions_copied(old, old_pairs, g, i, k)
                ==> #[trigger] actions_copied(new, pairs, g, i, k),
        forall|j: int| 1 <= j < old.states.len() && old.states[j] ==> #[trigger] entered(new, pairs, j),
{
    assert forall|a: int| 0 <= a < old.states.len() && !old.states[a] implies #[trigger] copied(
        new,
        pairs,
        g,
        a,
    ) by {
        assert(copied(old, old_pairs, g, a));
        let i = old_pairs[a].0 as int;
        let x = choose|x: int|
            0 <= x < old.edges.len() && (#[trigger] old.edges[x]).source == i && old.edges[x].target == a
                && old.edges[x].weight == ONE;
        assert(new.edges[x] == old.edges[x]);
    }
    assert forall|a: int| 0 <= a < old.states.len() && !old.states[a] implies #[trigger] outcomes_copied(
        new,
        pairs,
        g,
        a,
        g.edges.len() as int,
    ) by {
        assert(outcomes_copied(old, old_pairs, g, a, g.edges.len() as int));
        lemma_out_sum_grown(old, new, a, new.edges.len() as int);
        let action = g.edges[old_pairs[a].1 as int].target as int;
        assert forall|e2: int|
            0 <= e2 < g.edges.len() && (#[trigger] g.edges[e2]).source == action implies exists|x: int|
            0 <= x < new.edges.len() && (#[trigger] new.edges[x]).source == a
                && pairs[new.edges[x].target as int].0 == g.edges[e2].target && new.edges[x].weight
                == g.edges[e2].weight by {
            let x = choose|x: int|
                0 <= x < old.edges.len() && (#[trigger] old.edges[x]).source == a
                    && old_pairs[old.edges[x].target as int].0 == g.edges[e2].target
                    && old.edges[x].weight == g.edges[e2].weight;
            assert(old.edge_ok(old.edges[x]));
            assert(new.edges[x] == old.edges[x]);
        }
    }
    assert forall|x: int| 0 <= x < old.edges.len() implies #[trigger] edge_sound(
        new,
        pairs,
        g,
        dra,
        ap,
        x,
    ) by {
        assert(edge_sound(old, old_pairs, g, dra, ap, x));
        assert(old.edge_ok(old.edges[x]));
        assert(new.edges[x] == old.edges[x]);
        let e = old.edges[x];
        if !old.states[e.source as int] {
            let a = e.source as int;
            assert(copied(old, old_pairs, g, a));
            let j = e.target as int;
            let i = old_pairs[a].0 as int;
            let e1 = old_pairs[a].1 as int;
            let e2 = choose|e2: int|
                0 <= e2 < g.edges.len() && (#[trigger] g.edges[e2]).source == g.edges[e1].target
                    && g.edges[e2].target == old_pairs[j].0 && g.edges[e2].weight
                    == old.edges[x].weight;
            assert(g.edges[e2].source == g.edges[pairs[a].1 as int].target);
        }
    }
    assert forall|i: int, k: int|
        0 <= i < old.states.len() && old.states[i] && actions_copied(
            old,
            old_pairs,
            g,
            i,
            k,
        ) implies #[trigger] actions_copied(new, pairs, g, i, k) by {
        assert forall|e1: int|
            0 <= e1 < k && (#[trigger] g.edges[e1]).source == pairs[i].0 implies exists|a: int|
            0 <= a < new.states.len() && !new.states[a] && #[trigger] pairs[a] == (
                i as usize,
                e1 as usize,
            ) by {
            let a = choose|a: int|
                0 <= a < old.states.len() && !old.states[a] && #[trigger] old_pairs[a] == (
                    i as usize,
                    e1 as usize,
                );
            assert(pairs[a] == old_pairs[a]);
        }
    }
    assert forall|i: int|
        0 <= i < head && i < old.states.len() && old.states[i] implies #[trigger] actions_copied(
        new,
        pairs,
        g,
        i,
        g.edges.len() as int,
    ) by {
        assert(actions_copied(old, old_pairs, g, i, g.edges.len() as int));
    }
    assert forall|j: int| 1 <= j < old.states.len() && old.states[j] implies #[trigger] entered(
        new,
        pairs,
        j,
    ) by {
        assert(entered(old, old_pairs, j));
        let x = choose|x: int|
            0 <= x < old.edges.len() && (#[trigger] old.edges[x]).target == j
                && !old.states[old.edges[x].source as int] && old_pairs[old.edges[x].source as int].0 < j;
        assert(old.edge_ok(old.edges[x]));
        assert(new.edges[x] == old.edges[x]);
        assert(new.states[old.edges[x].source as int] == old.states[old.edges[x].source as int]);
        assert(pairs[old.edges[x].source as int] == old_pairs[old.edges[x].source as int]);
    }
}

/// The state node of the product that stands for `mdp_node` and
/// `dra_state`; it is added where there is none.
fn find_or_create_node(
    product: &mut Product,
    mdp_node: usize,
    dra_state: usize,
    Ghost(g): Ghost<MdpView>,
    Ghost(m): Ghost<int>,
) -> (at: usize)
    requires
        old(product).wf(g, m),
        apart(old(product).mdp@, old(product).pairs@),
        g.is_state(mdp_node as int),
        dra_state < m,
    ensures
        final(product).wf(g, m),
        apart(final(product).mdp@, final(product).pairs@),
        final(product).initial == old(product).initial,
        at < final(product).mdp@.states.len(),
        final(product).mdp@.states[at as int],
        final(product).pairs@[at as int] == (mdp_node, dra_state),
        grown_from(old(product).mdp@, final(product).mdp@),
        longer(old(product).pairs@, final(product).pairs@),
        final(product).mdp@.edges == old(product).mdp@.edges,
        final(product).mdp@.states.len() <= old(product).mdp@.states.len() + 1,
        final(product).mdp@.states.len() > old(product).mdp@.states.len() ==> at == old(
            product,
        ).mdp@.states.len(),
        forall|i: int|
            old(product).mdp@.states.len() <= i < final(product).mdp@.states.len()
                ==> final(product).mdp@.states[i],
        forall|j: int|
            0 <= j < old(product).mdp@.states.len() ==> final(product).mdp.label_of(j)
                == old(product).mdp.label_of(j),
{
    let n = product.pairs.len();
    let mut i: usize = 0;
    while i < n
        invariant
            i <= n,
            n == product.pairs@.len(),
            product == old(product),
            product.wf(g, m),
            apart(product.mdp@, product.pairs@),
            forall|j: int|
                0 <= j < i && product.mdp@.states[j] ==> (#[trigger] product.pairs@[j]) != (
                    mdp_node,
                    dra_state,
                ),
        decreases n - i,
    {
        if product.mdp.is_state(i) && product.pairs[i].0 == mdp_node && product.pairs[i].1
            == dra_state {
            return i;
        }
        i = i + 1;
    }
    let at = product.mdp.add_state();
    product.pairs.push((mdp_node, dra_state));
    assert forall|i: int| 0 <= i < product.pairs@.len() && product.mdp@.states[i] implies g.is_state(
        (#[trigger] product.pairs@[i]).0 as int,
    ) && product.pairs@[i].1 < m by {
        if i < n {
            assert(product.pairs@[i] == old(product).pairs@[i]);
            assert(old(product).mdp@.states[i]);
        }
    }
    assert forall|i: int, j: int|
        0 <= i < j < product.mdp@.states.len() && product.mdp@.states[i]
            && product.mdp@.states[j] implies #[trigger] product.pairs@[i]
        != #[trigger] product.pairs@[j] by {
        assert(product.pairs@[i] == old(product).pairs@[i]);
        if j < n {
            assert(product.pairs@[j] == old(product).pairs@[j]);
        }
    }
    at
}

/// No weight leaves a node that no edge leaves.
pub proof fn lemma_all_zero(pv: MdpView, a: int, k: int)
    requires
        pv.wf(),
        0 <= k <= pv.edges.len(),
        a >= pv.states.len(),
    ensures
        pv.out_sum(a, k) == 0,
    decreases k,
{
    if k > 0 {
        lemma_all_zero(pv, a, k - 1);
        assert(pv.edge_ok(pv.edges[k - 1]));
    }
}

/// The weights that leave a node depend on the edges only.
pub proof fn lemma_same_edges(a: MdpView, b: MdpView, n: int, k: int)
    requires
        0 <= k <= a.edges.len(),
        k <= b.edges.len(),
        forall|x: int| 0 <= x < k ==> #[trigger] a.edges[x] == b.edges[x],
    ensures
        a.out_sum(n, k) == b.out_sum(n, k),
    decreases k,
{
    if k > 0 {
        lemma_same_edges(a, b, n, k - 1);
    }
}

/// What holds of a copy while its outcomes are copied: the product has
/// grown from what it was by the copy, by state nodes behind it, by the edge
/// to the copy and by the copies of outcomes, and the first `done` edges of
/// the process are copied where they are outcomes.
pub open spec fn copying(
    old_pv: MdpView,
    old_pairs: Seq<(usize, usize)>,
    pv: MdpView,
    pairs: Seq<(usize, usize)>,
    g: MdpView,
    dra: &DRA,
    ap: Map<Seq<char>, Set<int>>,
    from: usize,
    through: usize,
    done: int,
) -> bool {
    let copy = old_pv.states.len() as int;
    let old_m = old_pv.edges.len() as int;
    &&& pairs.len() == pv.states.len()
    &&& apart(pv, pairs)
    &&& grown_from(old_pv, pv)
    &&& longer(old_pairs, pairs)
    &&& copy < pv.states.len()
    &&& !pv.states[copy]
    &&& pairs[copy] == (from, through)
    &&& forall|j: int| copy < j < pv.states.len() ==> #[trigger] pv.states[j]
    &&& pv.edges.len() > old_m
    &&& pv.edges[old_m].source == from && pv.edges[old_m].target == copy && pv.edges[old_m].weight == ONE
    &&& forall|x: int|
        old_m < x < pv.edges.len() ==> (#[trigger] pv.edges[x]).source == copy && outcome_of(
            pv,
            pairs,
            g,
            dra,
            ap,
            copy,
            x,
        )
    &&& outcomes_copied(pv, pairs, g, copy, done)
    &&& forall|j: int| copy < j < pv.states.len() ==> #[trigger] entered(pv, pairs, j)
}

/// Copying one more outcome keeps what holds of the copy.
proof fn lemma_copy_outcome(
    old_pv: MdpView,
    old_pairs: Seq<(usize, usize)>,
    before: MdpView,
    before_pairs: Seq<(usize, usize)>,
    mid: MdpView,
    pv: MdpView,
    pairs: Seq<(usize, usize)>,
    g: MdpView,
    dra: &DRA,
    ap: Map<Seq<char>, Set<int>>,
    from: usize,
    through: usize,
    done: int,
    node: usize,
)
    requires
        old_pv.wf(),
        before.wf(),
        mid.wf(),
        pv.wf(),
        old_pairs.len() == old_pv.states.len(),
        from < old_pv.states.len(),
        through < g.edges.len(),
        0 <= done < g.edges.len(),
        g.edges[done].source == g.edges[through as int].target,
        copying(old_pv, old_pairs, before, before_pairs, g, dra, ap, from, through, done),
        grown_from(before, mid),
        mid.edges == before.edges,
        mid.states.len() <= before.states.len() + 1,
        forall|i: int| before.states.len() <= i < mid.states.len() ==> mid.states[i],
        longer(before_pairs, pairs),
        pairs.len() == mid.states.len(),
        apart(mid, pairs),
        node < mid.states.len(),
        mid.states[node as int],
        mid.states.len() > before.states.len() ==> node == before.states.len(),
        pairs[node as int].0 == g.edges[done].target,
        pairs[node as int].1 == next_state(
            dra,
            ap,
            old_pairs[from as int].1 as int,
            old_pairs[from as int].0 as int,
        ),
        pv.states == mid.states,
        pv.edges == mid.edges.push(
            Edge {
                source: old_pv.states.len() as usize,
                target: node,
                weight: g.edges[done].weight,
            },
        ),
        old_pv.states.len() <= usize::MAX,
    ensures
        copying(old_pv, old_pairs, pv, pairs, g, dra, ap, from, through, done + 1),
{
    let copy = old_pv.states.len() as int;
    let old_m = old_pv.edges.len() as int;
    let last = mid.edges.len() as int;
    let e1 = Edge { source: copy as usize, target: node, weight: g.edges[done].weight };
    let action = g.edges[through as int].target as int;
    assert(pv.edges[last] == e1);
    assert(pairs[copy] == before_pairs[copy]);
    assert(pairs[from as int] == old_pairs[from as int]) by {
        assert(before_pairs[from as int] == old_pairs[from as int]);
    }
    assert(outcome_of(pv, pairs, g, dra, ap, copy, last)) by {
        assert(g.edges[done].source == g.edges[pairs[copy].1 as int].target);
    }
    assert forall|x: int| old_m < x < pv.edges.len() implies (#[trigger] pv.edges[x]).source == copy
        && outcome_of(pv, pairs, g, dra, ap, copy, x) by {
        if x < last {
            assert(before.edges[x].source == copy);
            assert(outcome_of(before, before_pairs, g, dra, ap, copy, x));
            assert(before.edge_ok(before.edges[x]));
            let j = before.edges[x].target as int;
            let e2 = choose|e2: int|
                0 <= e2 < g.edges.len() && (#[trigger] g.edges[e2]).source
                    == g.edges[before_pairs[copy].1 as int].target && g.edges[e2].target
                    == before_pairs[j].0 && g.edges[e2].weight == before.edges[x].weight;
            assert(pv.edges[x] == before.edges[x]);
            assert(pairs[j] == before_pairs[j]);
            assert(g.edges[e2].source == g.edges[pairs[copy].1 as int].target);
        }
    }
    lemma_same_edges(before, mid, copy, last);
    lemma_out_sum_push(mid, e1, copy, last);
    assert(pv == (MdpView { states: mid.states, edges: mid.edges.push(e1) }));
    assert(pv.out_weight(copy) == before.out_weight(copy) + g.edges[done].weight);
    assert forall|e2: int| 0 <= e2 < done + 1 && (#[trigger] g.edges[e2]).source == action implies exists|x: int|
        0 <= x < pv.edges.len() && (#[trigger] pv.edges[x]).source == copy
            && pairs[pv.edges[x].target as int].0 == g.edges[e2].target && pv.edges[x].weight
            == g.edges[e2].weight by {
        if e2 < done {
            let x = choose|x: int|
                0 <= x < before.edges.len() && (#[trigger] before.edges[x]).source == copy
                    && before_pairs[before.edges[x].target as int].0 == g.edges[e2].target
                    && before.edges[x].weight == g.edges[e2].weight;
            assert(before.edge_ok(before.edges[x]));
            assert(pv.edges[x] == before.edges[x]);
        } else {
            assert(pv.edges[last].source == copy);
        }
    }
    assert forall|j: int| copy < j < pv.states.len() implies #[trigger] entered(pv, pairs, j) by {
        if j < before.states.len() {
            assert(entered(before, before_pairs, j));
            let x = choose|x: int|
                0 <= x < before.edges.len() && (#[trigger] before.edges[x]).target == j
                    && !before.states[before.edges[x].source as int]
                    && before_pairs[before.edges[x].source as int].0 < j;
            assert(before.edge_ok(before.edges[x]));
            assert(pv.edges[x] == before.edges[x]);
            assert(pv.states[before.edges[x].source as int] == before.states[before.edges[x].source as int]);
            assert(pairs[before.edges[x].source as int] == before_pairs[before.edges[x].source as int]);
        } else {
            assert(j == node as int);
            assert(pv.edges[last].target == j);
            assert(!pv.states[copy]);
            assert(pairs[copy].0 == from);
        }
    }
    assert(pv.edges[old_m] == before.edges[old_m]);
    assert(grown_from(old_pv, pv));
    assert(longer(old_pairs, pairs));
    assert forall|j: int| copy < j < pv.states.len() implies #[trigger] pv.states[j] by {
        if j < before.states.len() {
            assert(before.states[j]);
        }
    }
}

/// An edge of the process that is no outcome of the action changes
/// nothing.
proof fn lemma_skip_outcome(
    old_pv: MdpView,
    old_pairs: Seq<(usize, usize)>,
    pv: MdpView,
    pairs: Seq<(usize, usize)>,
    g: MdpView,
    dra: &DRA,
    ap: Map<Seq<char>, Set<int>>,
    from: usize,
    through: usize,
    done: int,
)
    requires
        0 <= done < g.edges.len(),
        through < g.edges.len(),
        g.edges[done].source != g.edges[through as int].target,
        copying(old_pv, old_pairs, pv, pairs, g, dra, ap, from, through, done),
    ensures
        copying(old_pv, old_pairs, pv, pairs, g, dra, ap, from, through, done + 1),
{
}

/// When all outcomes are copied, what holds of the product holds again.
proof fn lemma_copy_done(
    old_pv: MdpView,
    old_pairs: Seq<(usize, usize)>,
    pv: MdpView,
    pairs: Seq<(usize, usize)>,
    g: MdpView,
    dra: &DRA,
    ap: Map<Seq<char>, Set<int>>,
    from: usize,
    through: usize,
    head: int,
)
    requires
        old_pv.wf(),
        pv.wf(),
        growing(old_pv, old_pairs, g, dra, ap, head),
        head <= old_pv.states.len(),
        from < old_pv.states.len(),
        old_pv.states[from as int],
        through < g.edges.len(),
        g.edges[through as int].source == old_pairs[from as int].0,
        copying(old_pv, old_pairs, pv, pairs, g, dra, ap, from, through, g.edges.len() as int),
    ensures
        growing(pv, pairs, g, dra, ap, head),
        forall|i: int, k: int|
            0 <= i < old_pv.states.len() && old_pv.states[i] && actions_copied(
                old_pv,
                old_pairs,
                g,
                i,
                k,
            ) ==> #[trigger] actions_copied(pv, pairs, g, i, k),
{
    let copy = old_pv.states.len() as int;
    let old_m = old_pv.edges.len() as int;
    assert forall|x: int|
        old_m <= x < pv.edges.len() implies old_pv.states[(#[trigger] pv.edges[x]).source as int]
        || pv.edges[x].source >= old_pv.states.len() by {}
    lemma_growing_kept(old_pv, old_pairs, pv, pairs, g, dra, ap, head);
    assert forall|a: int| 0 <= a < pv.states.len() && !pv.states[a] implies #[trigger] copied(
        pv,
        pairs,
        g,
        a,
    ) by {
        if a >= copy {
            assert(a == copy);
            assert(pairs[from as int] == old_pairs[from as int]);
            assert(pv.edges[old_m].source == from);
            assert(joined(pv, from as int, copy, ONE));
        }
    }
    assert forall|a: int| 0 <= a < pv.states.len() && !pv.states[a] implies #[trigger] outcomes_copied(
        pv,
        pairs,
        g,
        a,
        g.edges.len() as int,
    ) by {
        if a >= copy {
            assert(a == copy);
        }
    }
    assert forall|x: int| 0 <= x < pv.edges.len() implies #[trigger] edge_sound(
        pv,
        pairs,
        g,
        dra,
        ap,
        x,
    ) by {
        if x == old_m {
            assert(pv.states[from as int]);
        } else if x > old_m {
            assert(pv.edges[x].source == copy);
        }
    }
    assert forall|j: int| 1 <= j < pv.states.len() && pv.states[j] implies #[trigger] entered(
        pv,
        pairs,
        j,
    ) by {}
}

/// Copies the action to which edge `through` of the process leads, below state
/// node `from` of the product: the copy gets the action's label and its
/// outcomes, each leading to the node of its state together with
/// `dra_state`.
fn copy_action(
    product: &mut Product,
    pctl_info: &PctlInfo,
    dra: &DRA,
    from: usize,
    through: usize,
    dra_state: usize,
    Ghost(head): Ghost<int>,
) -> (copy: usize)
    requires
        pctl_info.wf(),
        dra.wf(),
        old(product).wf(pctl_info.reach_graph@, dra.size()),
        growing(
            old(product).mdp@,
            old(product).pairs@,
            pctl_info.reach_graph@,
            dra,
            pctl_info.ap_map@,
            head,
        ),
        head <= old(product).mdp@.states.len(),
        from < old(product).mdp@.states.len(),
        old(product).mdp@.states[from as int],
        through < pctl_info.reach_graph@.edges.len(),
        pctl_info.reach_graph@.edges[through as int].source == old(product).pairs@[from as int].0,
        dra_state == next_state(
            dra,
            pctl_info.ap_map@,
            old(product).pairs@[from as int].1 as int,
            old(product).pairs@[from as int].0 as int,
        ),
        dra_state < dra.size(),
        labels_copied(old(product), pctl_info),
    ensures
        final(product).wf(pctl_info.reach_graph@, dra.size()),
        growing(
            final(product).mdp@,
            final(product).pairs@,
            pctl_info.reach_graph@,
            dra,
            pctl_info.ap_map@,
            head,
        ),
        final(product).initial == old(product).initial,
        grown_from(old(product).mdp@, final(product).mdp@),
        longer(old(product).pairs@, final(product).pairs@),
        copy == old(product).mdp@.states.len(),
        copy < final(product).mdp@.states.len(),
        !final(product).mdp@.states[copy as int],
        final(product).pairs@[copy as int] == (from, through),
        forall|j: int| copy < j < final(product).mdp@.states.len() ==> final(product).mdp@.states[j],
        forall|i: int, k: int|
            0 <= i < old(product).mdp@.states.len() && old(product).mdp@.states[i] && actions_copied(
                old(product).mdp@,
                old(product).pairs@,
                pctl_info.reach_graph@,
                i,
                k,
            ) ==> #[trigger] actions_copied(
                final(product).mdp@,
                final(product).pairs@,
                pctl_info.reach_graph@,
                i,
                k,
            ),
        labels_copied(final(product), pctl_info),
{
    let mdp = &pctl_info.reach_graph;
    let ghost g = mdp@;
    let ghost m = dra.size();
    let ghost ap = pctl_info.ap_map@;
    let ghost old_pv = product.mdp@;
    let ghost old_pairs = product.pairs@;
    let ghost old_m = old_pv.edges.len() as int;
    let first = mdp.edge(through);
    let action = first.target;
    assert(g.edge_ok(first));
    let label = match mdp.node(action) {
        Node::Action(l) => l,
        Node::State(_) => String::new(),
    };
    let copy = product.mdp.add_action(label);
    product.pairs.push((from, through));
    assert(product.wf(g, m)) by {
        assert forall|i: int| 0 <= i < product.pairs@.len() && product.mdp@.states[i] implies g.is_state(
            (#[trigger] product.pairs@[i]).0 as int,
        ) && product.pairs@[i].1 < m by {
            if i < old_pairs.len() {
                assert(product.pairs@[i] == old_pairs[i]);
                assert(old_pv.states[i]);
            }
        }
    }
    let ghost with_copy = product.mdp@;
    let ghost e0 = Edge { source: from, target: copy, weight: ONE };
    assert(product.mdp@.edge_ok(e0));
    let added = product.mdp.add_edge(from, copy, ONE);
    assert(added is Ok);
    proof {
        let pv = product.mdp@;
        let pairs = product.pairs@;
        assert(pv.edges[old_m] == e0);
        lemma_all_zero(old_pv, copy as int, old_m);
        lemma_same_edges(old_pv, with_copy, copy as int, old_m);
        lemma_out_sum_push(with_copy, e0, copy as int, old_m);
        assert(pv == (MdpView { states: with_copy.states, edges: with_copy.edges.push(e0) }));
        assert(pv.out_weight(copy as int) == 0);
        assert(apart(pv, pairs)) by {
            assert forall|i: int, j: int|
                0 <= i < j < pv.states.len() && pv.states[i] && pv.states[j] implies #[trigger] pairs[i]
                != #[trigger] pairs[j] by {
                assert(pairs[i] == old_pairs[i]);
                assert(pairs[j] == old_pairs[j]);
            }
        }
        assert(copying(old_pv, old_pairs, pv, pairs, g, dra, ap, from, through, 0));
    }
    let edges = mdp.edge_count();
    let mut e: usize = 0;
    while e < edges
        invariant
            e <= edges,
            edges == g.edges.len(),
            g == mdp@,
            m == dra.size(),
            ap == pctl_info.ap_map@,
            pctl_info.wf(),
            dra.wf(),
            mdp == &pctl_info.reach_graph,
            old_pv.wf(),
            old_pairs.len() == old_pv.states.len(),
            old_pv.states.len() <= usize::MAX,
            g.is_action(action as int),
            action == g.edges[through as int].target,
            through < g.edges.len(),
            from < old_pv.states.len(),
            dra_state < m,
            dra_state == next_state(
                dra,
                ap,
                old_pairs[from as int].1 as int,
                old_pairs[from as int].0 as int,
            ),
            product.wf(g, m),
            product.initial == old(product).initial,
            copy == old_pv.states.len(),
            copying(
                old_pv,
                old_pairs,
                product.mdp@,
                product.pairs@,
                g,
                dra,
                ap,
                from,
                through,
                e as int,
            ),
            product.mdp.label_of(copy as int) == mdp.label_of(action as int),
            forall|j: int|
                0 <= j < old_pv.states.len() ==> product.mdp.label_of(j) == old(product).mdp.label_of(j),
        decreases edges - e,
    {
        let edge = mdp.edge(e);
        let ghost before = product.mdp@;
        let ghost before_pairs = product.pairs@;
        if edge.source == action {
            assert(g.edge_ok(edge));
            let node = find_or_create_node(product, edge.target, dra_state, Ghost(g), Ghost(m));
            let ghost mid = product.mdp@;
            let ghost e1 = Edge { source: copy, target: node, weight: edge.weight };
            assert(product.mdp@.edge_ok(e1));
            let added = product.mdp.add_edge(copy, node, edge.weight);
            assert(added is Ok);
            proof {
                lemma_copy_outcome(
                    old_pv,
                    old_pairs,
                    before,
                    before_pairs,
                    mid,
                    product.mdp@,
                    product.pairs@,
                    g,
                    dra,
                    ap,
                    from,
                    through,
                    e as int,
                    node,
                );
            }
        } else {
            proof {
                lemma_skip_outcome(
                    old_pv,
                    old_pairs,
                    before,
                    before_pairs,
                    g,
                    dra,
                    ap,
                    from,
                    through,
                    e as int,
                );
            }
        }
        e = e + 1;
    }
    proof {
        let pv = product.mdp@;
        let pairs = product.pairs@;
        lemma_copy_done(old_pv, old_pairs, pv, pairs, g, dra, ap, from, through, head);
        assert forall|a: int|
            0 <= a < pairs.len() && !pv.states[a] implies #[trigger] product.mdp.label_of(a)
            == pctl_info.reach_graph.label_of(g.edges[pairs[a].1 as int].target as int) by {
            if a < old_pv.states.len() {
                assert(pairs[a] == old_pairs[a]);
                assert(old(product).mdp.label_of(a) == pctl_info.reach_graph.label_of(
                    g.edges[old_pairs[a].1 as int].target as int,
                ));
            }
        }
    }
    copy
}

/// The product of the process with the automaton: from the initial states
/// of both, each state node gets a copy of each action of its state of the
/// process, and an outcome of the copy leads to the outcome's state together
/// with the successor of the automaton under the label of the state that is
/// left.
pub fn build_product(dra: &DRA, pctl_info: &PctlInfo) -> (res: Product)
    requires
        dra.wf(),
        pctl_info.wf(),
    ensures
        res.is_product_of(pctl_info, dra),
{
    let mdp = &pctl_info.reach_graph;
    let ghost g = mdp@;
    let ghost m = dra.size();
    let ghost ap = pctl_info.ap_map@;
    let mut product = Product { mdp: Mdp::new(), pairs: Vec::new(), initial: 0 };
    let first = product.mdp.add_state();
    product.pairs.push((pctl_info.initial_marking, dra.initial));
    let edges = mdp.edge_count();
    let mut head: usize = 0;
    while head < product.pairs.len()
        invariant
            dra.wf(),
            pctl_info.wf(),
            mdp == &pctl_info.reach_graph,
            g == mdp@,
            m == dra.size(),
            ap == pctl_info.ap_map@,
            edges == g.edges.len(),
            product.wf(g, m),
            product.initial == 0,
            product.pairs@.len() >= 1,
            product.pairs@[0] == (pctl_info.initial_marking, dra.initial),
            head <= product.pairs@.len(),
            growing(product.mdp@, product.pairs@, g, dra, ap, head as int),
            labels_copied(&product, pctl_info),
            copies_apart(product.mdp@, product.pairs@),
            copies_before(product.mdp@, product.pairs@, head as int, 0),
        decreases usize::MAX - head,
    {
        if product.mdp.is_state(head) {
            let s = product.pairs[head].0;
            let q = product.pairs[head].1;
            let label = label_of(pctl_info, s);
            let next_q = dra.delta(q, Some(&label));
            let mut e: usize = 0;
            while e < edges
                invariant
                    e <= edges,
                    dra.wf(),
                    pctl_info.wf(),
                    mdp == &pctl_info.reach_graph,
                    g == mdp@,
                    m == dra.size(),
                    ap == pctl_info.ap_map@,
                    edges == g.edges.len(),
                    product.wf(g, m),
                    product.initial == 0,
                    product.pairs@.len() >= 1,
                    product.pairs@[0] == (pctl_info.initial_marking, dra.initial),
                    head < product.pairs@.len(),
                    product.mdp@.states[head as int],
                    product.pairs@[head as int] == (s, q),
                    g.is_state(s as int),
                    next_q < m,
                    next_q == next_state(dra, ap, q as int, s as int),
                    growing(product.mdp@, product.pairs@, g, dra, ap, head as int),
                    actions_copied(product.mdp@, product.pairs@, g, head as int, e as int),
                    labels_copied(&product, pctl_info),
                    copies_apart(product.mdp@, product.pairs@),
                    copies_before(product.mdp@, product.pairs@, head as int, e as int),
                decreases edges - e,
            {
                let edge = mdp.edge(e);
                if edge.source == s {
                    assert(g.edge_ok(edge));
                    let ghost before = product.mdp@;
                    let ghost before_pairs = product.pairs@;
                    let copy = copy_action(
                        &mut product,
                        pctl_info,
                        dra,
                        head,
                        e,
                        next_q,
                        Ghost(head as int),
                    );
                    proof {
                        let pv = product.mdp@;
                        let pairs = product.pairs@;
                        assert(actions_copied(pv, pairs, g, head as int, e as int));
                        assert(pairs[head as int] == before_pairs[head as int]);
                        assert(pairs[0] == before_pairs[0]);
                        assert(pv.states[head as int] == before.states[head as int]);
                        assert forall|e1: int|
                            0 <= e1 < e + 1 && (#[trigger] g.edges[e1]).source
                                == pairs[head as int].0 implies exists|a: int|
                            0 <= a < pv.states.len() && !pv.states[a] && #[trigger] pairs[a] == (
                                head as usize,
                                e1 as usize,
                            ) by {
                            if e1 == e {
                                assert(pairs[copy as int] == (head, e));
                            }
                        }
                        assert forall|a: int| 0 <= a < pv.states.len() && !pv.states[a] implies (
                        #[trigger] pairs[a]).0 < head || (pairs[a].0 == head && pairs[a].1 < e + 1) by {
                            if a < copy {
                                assert(pairs[a] == before_pairs[a]);
                                assert(pv.states[a] == before.states[a]);
                            }
                        }
                        assert forall|a: int, b: int|
                            0 <= a < b < pv.states.len() && !pv.states[a]
                                && !pv.states[b] implies #[trigger] pairs[a] != #[trigger] pairs[b] by {
                            assert(pairs[a] == before_pairs[a]);
                            assert(pv.states[a] == before.states[a]);
                            if b < copy {
                                assert(pairs[b] == before_pairs[b]);
                                assert(pv.states[b] == before.states[b]);
                            }
                        }
                    }
                } else {
                    assert(actions_copied(product.mdp@, product.pairs@, g, head as int, e as int + 1));
                }
                e = e + 1;
            }
        }
        proof {
            assert forall|i: int|
                0 <= i < head + 1 && i < product.mdp@.states.len()
                    && product.mdp@.states[i] implies #[trigger] actions_copied(
                product.mdp@,
                product.pairs@,
                g,
                i,
                g.edges.len() as int,
            ) by {}
        }
        head = head + 1;
    }
    product
}

/// Some edge leads from `n` to a node that is left.
pub open spec fn has_exit(g: MdpView, alive: Seq<bool>, n: int) -> bool {
    exists|e: int| 0 <= e < g.edges.len() && (#[trigger] g.edges[e]).source == n && alive[g.edges[e].target as int]
}

/// Some edge leads to `n` from a node that is left.
pub open spec fn has_entry(g: MdpView, alive: Seq<bool>, n: int) -> bool {
    exists|e: int| 0 <= e < g.edges.len() && (#[trigger] g.edges[e]).target == n && alive[g.edges[e].source as int]
}

/// Every edge from `n` leads to a node that is left.
pub open spec fn all_exits(g: MdpView, alive: Seq<bool>, n: int) -> bool {
    forall|e: int| 0 <= e < g.edges.len() && (#[trigger] g.edges[e]).source == n ==> alive[g.edges[e].target as int]
}

/// Node `n` can stay among the nodes that are left: a state has an action
/// that is left; an action is entered from a state that is left, has an
/// outcome, and has every outcome among the states that are left.
pub open spec fn stays(g: MdpView, alive: Seq<bool>, n: int) -> bool {
    if g.states[n] {
        has_exit(g, alive, n)
    } else {
        has_entry(g, alive, n) && has_exit(g, alive, n) && all_exits(g, alive, n)
    }
}

/// Every node that is left can stay.
pub open spec fn settled_down(g: MdpView, alive: Seq<bool>) -> bool {
    alive.len() == g.states.len() && forall|n: int| 0 <= n < alive.len() && alive[n] ==> #[trigger] stays(g, alive, n)
}

/// The nodes of `a` are among those of `b`.
pub open spec fn inside(a: Seq<bool>, b: Seq<bool>) -> bool {
    a.len() == b.len() && forall|n: int| 0 <= n < a.len() && a[n] ==> #[trigger] b[n]
}

/// A node that can stay among fewer nodes can stay among more.
pub proof fn lemma_stays_mono(g: MdpView, a: Seq<bool>, b: Seq<bool>, n: int)
    requires
        g.wf(),
        inside(a, b),
        a.len() == g.states.len(),
        0 <= n < a.len(),
        stays(g, a, n),
    ensures
        stays(g, b, n),
{
    if has_exit(g, a, n) {
        let e = choose|e: int| 0 <= e < g.edges.len() && (#[trigger] g.edges[e]).source == n && a[g.edges[e].target as int];
        assert(g.edge_ok(g.edges[e]));
        assert(b[g.edges[e].target as int]);
    }
    if !g.states[n] {
        let e = choose|e: int| 0 <= e < g.edges.len() && (#[trigger] g.edges[e]).target == n && a[g.edges[e].source as int];
        assert(g.edge_ok(g.edges[e]));
        assert(b[g.edges[e].source as int]);
        assert forall|x: int| 0 <= x < g.edges.len() && (#[trigger] g.edges[x]).source == n implies b[g.edges[x].target as int] by {
            assert(g.edge_ok(g.edges[x]));
            assert(a[g.edges[x].target as int]);
        }
    }
}

/// Whether node `n` can stay among the nodes that are left.
fn can_stay(mdp: &Mdp, alive: &Vec<bool>, n: usize) -> (res: bool)
    requires
        mdp.wf(),
        alive@.len() == mdp@.states.len(),
        n < alive@.len(),
    ensures
        res == stays(mdp@, alive@, n as int),
{
    let m = mdp.edge_count();
    let mut exit = false;
    let mut entry = false;
    let mut all = true;
    let mut e: usize = 0;
    while e < m
        invariant
            mdp.wf(),
            m == mdp@.edges.len(),
            alive@.len() == mdp@.states.len(),
            e <= m,
            exit <==> exists|x: int|
                0 <= x < e && (#[trigger] mdp@.edges[x]).source == n && alive@[mdp@.edges[x].target as int],
            entry <==> exists|x: int|
                0 <= x < e && (#[trigger] mdp@.edges[x]).target == n && alive@[mdp@.edges[x].source as int],
            all <==> forall|x: int|
                0 <= x < e && (#[trigger] mdp@.edges[x]).source == n ==> alive@[mdp@.edges[x].target as int],
        decreases m - e,
    {
        let edge = mdp.edge(e);
        if edge.source == n {
            if alive[edge.target] {
                exit = true;
            } else {
                all = false;
            }
        }
        if edge.target == n && alive[edge.source] {
            entry = true;
        }
        e = e + 1;
    }
    if mdp.is_state(n) {
        exit
    } else {
        entry && exit && all
    }
}

/// Removes nodes until every node that is left can stay: what is left is
/// the largest set of nodes, among those given, of which that holds.
pub fn iterative_remove(mdp: &Mdp, alive: &mut Vec<bool>)
    requires
        mdp.wf(),
        old(alive)@.len() == mdp@.states.len(),
    ensures
        settled_down(mdp@, final(alive)@),
        inside(final(alive)@, old(alive)@),
        forall|x: Seq<bool>|
            inside(x, old(alive)@) && #[trigger] settled_down(mdp@, x) ==> inside(x, final(alive)@),
{
    let n = alive.len();
    loop
        invariant
            mdp.wf(),
            n == mdp@.states.len(),
            alive@.len() == n,
            inside(alive@, old(alive)@),
            forall|x: Seq<bool>|
                inside(x, old(alive)@) && #[trigger] settled_down(mdp@, x) ==> inside(x, alive@),
        ensures
            settled_down(mdp@, alive@),
        decreases count(alive@, n as int),
    {
        let ghost start = alive@;
        let mut changed = false;
        let mut i: usize = 0;
        while i < n
            invariant
                mdp.wf(),
                n == mdp@.states.len(),
                alive@.len() == n,
                start.len() == n,
                i <= n,
                inside(alive@, start),
                inside(alive@, old(alive)@),
                forall|x: Seq<bool>|
                    inside(x, old(alive)@) && #[trigger] settled_down(mdp@, x) ==> inside(x, alive@),
                !changed ==> alive@ == start && forall|k: int|
                    0 <= k < i && alive@[k] ==> #[trigger] stays(mdp@, alive@, k),
                changed ==> exists|k: int| 0 <= k < n && alive@[k] != start[k],
            decreases n - i,
        {
            if alive[i] && !can_stay(mdp, alive, i) {
                let ghost before = alive@;
                alive.set(i, false);
                proof {
                    assert(alive@[i as int] != start[i as int]);
                    assert forall|x: Seq<bool>|
                        inside(x, old(alive)@) && #[trigger] settled_down(mdp@, x) implies inside(
                        x,
                        alive@,
                    ) by {
                        assert(inside(x, before));
                        if x[i as int] {
                            assert(stays(mdp@, x, i as int));
                            lemma_stays_mono(mdp@, x, before, i as int);
                        }
                    }
                }
                changed = true;
            }
            i = i + 1;
        }
        if !changed {
            break ;
        }
        proof {
            lemma_count_less(alive@, start, n as int);
            lemma_count_bound(alive@, n as int);
        }
    }
}

/// The state nodes of the components that have two nodes or more and hold
/// a node that is flagged in `good`.
pub fn select(sccs: &Vec<Vec<usize>>, good: &Vec<bool>, is_state: &Vec<bool>) -> (res: Vec<bool>)
    requires
        good@.len() == is_state@.len(),
        forall|c: int, i: int|
            0 <= c < sccs@.len() && 0 <= i < sccs@[c]@.len() ==> (#[trigger] sccs@[c]@[i]) < good@.len(),
    ensures
        res@.len() == good@.len(),
        forall|v: int|
            0 <= v < res@.len() ==> (#[trigger] res@[v] <==> is_state@[v] && exists|c: int|
                0 <= c < sccs@.len() && #[trigger] chosen(sccs@[c]@, good@) && occurs(
                    sccs@[c]@,
                    v as usize,
                )),
{
    let n = good.len();
    let mut res: Vec<bool> = Vec::new();
    let mut i: usize = 0;
    while i < n
        invariant
            i <= n,
            res@.len() == i,
            forall|j: int| 0 <= j < i ==> !(#[trigger] res@[j]),
        decreases n - i,
    {
        res.push(false);
        i = i + 1;
    }
    let mut c: usize = 0;
    while c < sccs.len()
        invariant
            c <= sccs@.len(),
            n == good@.len(),
            n == is_state@.len(),
            res@.len() == n,
            forall|x: int, i: int|
                0 <= x < sccs@.len() && 0 <= i < sccs@[x]@.len() ==> (#[trigger] sccs@[x]@[i]) < n,
            forall|v: int|
                0 <= v < n ==> (#[trigger] res@[v] <==> is_state@[v] && exists|x: int|
                    0 <= x < c && #[trigger] chosen(sccs@[x]@, good@) && occurs(sccs@[x]@, v as usize)),
        decreases sccs@.len() - c,
    {
        let comp = &sccs[c];
        let ghost before = res@;
        if comp.len() >= 2 {
            let mut any = false;
            let mut i: usize = 0;
            while i < comp.len()
                invariant
                    i <= comp@.len(),
                    n == good@.len(),
                    forall|y: int| 0 <= y < comp@.len() ==> (#[trigger] comp@[y]) < n,
                    any <==> exists|y: int| 0 <= y < i && good@[(#[trigger] comp@[y]) as int],
                decreases comp@.len() - i,
            {
                if good[comp[i]] {
                    any = true;
                }
                i = i + 1;
            }
            if any {
                let mut i: usize = 0;
                while i < comp.len()
                    invariant
                        i <= comp@.len(),
                        n == is_state@.len(),
                        res@.len() == n,
                        forall|y: int| 0 <= y < comp@.len() ==> (#[trigger] comp@[y]) < n,
                        forall|v: int|
                            0 <= v < n ==> (#[trigger] res@[v] <==> before[v] || (is_state@[v] && exists|y: int|
                                0 <= y < i && #[trigger] comp@[y] == v)),
                    decreases comp@.len() - i,
                {
                    if is_state[comp[i]] {
                        res.set(comp[i], true);
                    }
                    i = i + 1;
                }
            }
        }
        proof {
            assert forall|v: int| 0 <= v < n implies (#[trigger] res@[v] <==> is_state@[v] && exists|x: int|
                0 <= x < c + 1 && #[trigger] chosen(sccs@[x]@, good@) && occurs(sccs@[x]@, v as usize)) by {
                if chosen(comp@, good@) {
                    if occurs(comp@, v as usize) {
                        let y = choose|y: int| 0 <= y < comp@.len() && (#[trigger] comp@[y]).elem() == v as usize;
                        assert(comp@[y] == v);
                    }
                    if res@[v] && !before[v] {
                        let y = choose|y: int| 0 <= y < comp@.len() && #[trigger] comp@[y] == v;
                        assert(comp@[y].elem() == v as usize);
                    }
                }
            }
        }
        c = c + 1;
    }
    res
}

/// The component has two nodes or more, and one of them is flagged.
pub open spec fn chosen(comp: Seq<usize>, good: Seq<bool>) -> bool {
    comp.len() >= 2 && exists|y: int| 0 <= y < comp.len() && good[(#[trigger] comp[y]) as int]
}

/// An edge leads from `a` to `b`, and both are left.
pub open spec fn step_within(g: MdpView, alive: Seq<bool>, a: int, b: int) -> bool {
    exists|e: int|
        0 <= e < g.edges.len() && (#[trigger] g.edges[e]).source == a && g.edges[e].target == b
            && alive[a] && alive[b]
}

/// `path` is a walk from `a` to `b` through nodes that are left.
pub open spec fn walk_within(g: MdpView, alive: Seq<bool>, path: Seq<int>, a: int, b: int) -> bool {
    &&& path.len() > 0
    &&& path[0] == a
    &&& path[path.len() - 1] == b
    &&& forall|i: int| 0 <= i < path.len() - 1 ==> #[trigger] step_within(g, alive, path[i], path[i + 1])
}

/// `b` is reached from `a` through nodes that are left.
pub open spec fn reached_within(g: MdpView, alive: Seq<bool>, a: int, b: int) -> bool {
    exists|path: Seq<int>| walk_within(g, alive, path, a, b)
}

/// `a` and `b` are left and lie on a common cycle through nodes that are
/// left, or are the same node.
pub open spec fn linked(g: MdpView, alive: Seq<bool>, a: int, b: int) -> bool {
    &&& 0 <= a < alive.len() && alive[a]
    &&& 0 <= b < alive.len() && alive[b]
    &&& reached_within(g, alive, a, b)
    &&& reached_within(g, alive, b, a)
}

/// The numbering of the nodes that are left: `new_index` gives the new
/// number of each of them, `old_index` the node of each new number.
pub open spec fn renumbered(alive: Seq<bool>, new_index: Seq<usize>, old_index: Seq<usize>) -> bool {
    &&& new_index.len() == alive.len()
    &&& forall|j: int|
        0 <= j < alive.len() && alive[j] ==> (#[trigger] new_index[j]) < old_index.len()
            && old_index[new_index[j] as int] == j
    &&& forall|k: int|
        0 <= k < old_index.len() ==> (#[trigger] old_index[k]) < alive.len() && alive[old_index[k] as int]
            && new_index[old_index[k] as int] == k
}

/// The edges of the smaller graph are the edges between nodes that are
/// left, under the new numbers.
pub open spec fn same_edges(
    g: MdpView,
    alive: Seq<bool>,
    new_index: Seq<usize>,
    sub: Seq<(usize, usize, u64)>,
    upto: int,
) -> bool {
    &&& forall|k: int|
        0 <= k < sub.len() ==> exists|e: int|
            0 <= e < upto && alive[(#[trigger] g.edges[e]).source as int] && alive[g.edges[e].target as int]
                && (#[trigger] sub[k]).0 == new_index[g.edges[e].source as int] && sub[k].1
                == new_index[g.edges[e].target as int]
    &&& forall|e: int|
        0 <= e < upto && alive[(#[trigger] g.edges[e]).source as int] && alive[g.edges[e].target as int]
            ==> has_edge(
            sub,
            new_index[g.edges[e].source as int] as int,
            new_index[g.edges[e].target as int] as int,
        )
}

/// A walk in the smaller graph is a walk through the nodes that are left.
proof fn lemma_walk_back(
    g: MdpView,
    alive: Seq<bool>,
    new_index: Seq<usize>,
    old_index: Seq<usize>,
    sub: Seq<(usize, usize, u64)>,
    path: Seq<int>,
    x: int,
    y: int,
)
    requires
        g.wf(),
        alive.len() == g.states.len(),
        renumbered(alive, new_index, old_index),
        same_edges(g, alive, new_index, sub, g.edges.len() as int),
        is_walk(sub, path, x, y),
        0 <= x < old_index.len(),
    ensures
        0 <= y < old_index.len(),
        reached_within(g, alive, old_index[x] as int, old_index[y] as int),
    decreases path.len(),
{
    if path.len() == 1 {
        let q = seq![old_index[x] as int];
        assert(walk_within(g, alive, q, old_index[x] as int, old_index[y] as int));
    } else {
        let before = path.drop_last();
        let z = before[before.len() - 1];
        assert(is_walk(sub, before, x, z)) by {
            assert forall|i: int| 0 <= i < before.len() - 1 implies #[trigger] has_edge(
                sub,
                before[i],
                before[i + 1],
            ) by {
                assert(has_edge(sub, path[i], path[i + 1]));
            }
        }
        lemma_walk_back(g, alive, new_index, old_index, sub, before, x, z);
        assert(has_edge(sub, path[path.len() - 2], path[path.len() - 2 + 1]));
        let k = choose|k: int| 0 <= k < sub.len() && (#[trigger] sub[k]).0 == z && sub[k].1 == y;
        let e = choose|e: int|
            0 <= e < g.edges.len() && alive[(#[trigger] g.edges[e]).source as int]
                && alive[g.edges[e].target as int] && sub[k].0 == new_index[g.edges[e].source as int]
                && sub[k].1 == new_index[g.edges[e].target as int];
        assert(g.edge_ok(g.edges[e]));
        let a = g.edges[e].source as int;
        let b = g.edges[e].target as int;
        assert(old_index[new_index[a] as int] == a);
        assert(old_index[new_index[b] as int] == b);
        assert(step_within(g, alive, a, b));
        let q = choose|q: Seq<int>| walk_within(g, alive, q, old_index[x] as int, old_index[z] as int);
        let longer = q.push(b);
        assert forall|i: int| 0 <= i < longer.len() - 1 implies #[trigger] step_within(
            g,
            alive,
            longer[i],
            longer[i + 1],
        ) by {
            if i < q.len() - 1 {
                assert(step_within(g, alive, q[i], q[i + 1]));
            }
        }
        assert(walk_within(g, alive, longer, old_index[x] as int, old_index[y] as int));
    }
}

/// A walk through the nodes that are left is a walk in the smaller graph.
proof fn lemma_walk_forth(
    g: MdpView,
    alive: Seq<bool>,
    new_index: Seq<usize>,
    old_index: Seq<usize>,
    sub: Seq<(usize, usize, u64)>,
    path: Seq<int>,
    a: int,
    b: int,
)
    requires
        g.wf(),
        alive.len() == g.states.len(),
        renumbered(alive, new_index, old_index),
        same_edges(g, alive, new_index, sub, g.edges.len() as int),
        walk_within(g, alive, path, a, b),
        0 <= a < alive.len(),
        alive[a],
    ensures
        0 <= b < alive.len(),
        alive[b],
        reaches(sub, new_index[a] as int, new_index[b] as int),
    decreases path.len(),
{
    if path.len() == 1 {
        let p = seq![new_index[a] as int];
        assert(is_walk(sub, p, new_index[a] as int, new_index[b] as int));
    } else {
        let before = path.drop_last();
        let z = before[before.len() - 1];
        assert(walk_within(g, alive, before, a, z)) by {
            assert forall|i: int| 0 <= i < before.len() - 1 implies #[trigger] step_within(
                g,
                alive,
                before[i],
                before[i + 1],
            ) by {
                assert(step_within(g, alive, path[i], path[i + 1]));
            }
        }
        lemma_walk_forth(g, alive, new_index, old_index, sub, before, a, z);
        assert(step_within(g, alive, path[path.len() - 2], path[path.len() - 2 + 1]));
        let e = choose|e: int|
            0 <= e < g.edges.len() && (#[trigger] g.edges[e]).source == z && g.edges[e].target == b
                && alive[z] && alive[b];
        assert(g.edge_ok(g.edges[e]));
        assert(has_edge(sub, new_index[z] as int, new_index[b] as int));
        let p = choose|p: Seq<int>| is_walk(sub, p, new_index[a] as int, new_index[z] as int);
        let longer = p.push(new_index[b] as int);
        assert forall|i: int| 0 <= i < longer.len() - 1 implies #[trigger] has_edge(
            sub,
            longer[i],
            longer[i + 1],
        ) by {
            if i < p.len() - 1 {
                assert(has_edge(sub, p[i], p[i + 1]));
            }
        }
        assert(is_walk(sub, longer, new_index[a] as int, new_index[b] as int));
    }
}

/// Two nodes of the smaller graph lie on a common cycle exactly if the
/// nodes that they stand for are linked.
proof fn lemma_linked(
    g: MdpView,
    alive: Seq<bool>,
    new_index: Seq<usize>,
    old_index: Seq<usize>,
    sub: Seq<(usize, usize, u64)>,
    x: int,
    y: int,
)
    requires
        g.wf(),
        alive.len() == g.states.len(),
        renumbered(alive, new_index, old_index),
        same_edges(g, alive, new_index, sub, g.edges.len() as int),
        0 <= x < old_index.len(),
        0 <= y < old_index.len(),
    ensures
        strongly_connected(sub, x, y) <==> linked(g, alive, old_index[x] as int, old_index[y] as int),
{
    let a = old_index[x] as int;
    let b = old_index[y] as int;
    if strongly_connected(sub, x, y) {
        let p = choose|p: Seq<int>| is_walk(sub, p, x, y);
        lemma_walk_back(g, alive, new_index, old_index, sub, p, x, y);
        let q = choose|q: Seq<int>| is_walk(sub, q, y, x);
        lemma_walk_back(g, alive, new_index, old_index, sub, q, y, x);
    }
    if linked(g, alive, a, b) {
        let p = choose|p: Seq<int>| walk_within(g, alive, p, a, b);
        lemma_walk_forth(g, alive, new_index, old_index, sub, p, a, b);
        let q = choose|q: Seq<int>| walk_within(g, alive, q, b, a);
        lemma_walk_forth(g, alive, new_index, old_index, sub, q, b, a);
    }
}

/// The components are those of the part of the process that is left: each
/// node that is left is in exactly one, and two are in the same one exactly
/// if they are linked.
pub open spec fn components_of(g: MdpView, alive: Seq<bool>, comps: Seq<Vec<usize>>) -> bool {
    &&& forall|c: int, i: int|
        0 <= c < comps.len() && 0 <= i < comps[c]@.len() ==> (#[trigger] comps[c]@[i]) < alive.len()
            && alive[comps[c]@[i] as int]
    &&& forall|v: int| 0 <= v < alive.len() && alive[v] ==> #[trigger] listed(comps, v)
    &&& forall|c: int, i: int, d: int, j: int|
        0 <= c < comps.len() && 0 <= i < comps[c]@.len() && 0 <= d < comps.len() && 0 <= j
            < comps[d]@.len() && (c != d || i != j) ==> #[trigger] comps[c]@[i]
            != #[trigger] comps[d]@[j]
    &&& forall|c: int, i: int, d: int, j: int|
        0 <= c < comps.len() && 0 <= i < comps[c]@.len() && 0 <= d < comps.len() && 0 <= j
            < comps[d]@.len() ==> ((c == d) <==> linked(
            g,
            alive,
            #[trigger] comps[c]@[i] as int,
            #[trigger] comps[d]@[j] as int,
        ))
}

/// The smaller graph of the nodes that are left, with the numbering of its
/// nodes both ways.
fn smaller_graph(mdp: &Mdp, alive: &Vec<bool>) -> (res: (
    Graph<u64, u64, Directed, usize>,
    Vec<usize>,
    Vec<usize>,
))
    requires
        mdp.wf(),
        alive@.len() == mdp@.states.len(),
    ensures
        graph_nodes(res.0).len() == res.2@.len(),
        renumbered(alive@, res.1@, res.2@),
        same_edges(mdp@, alive@, res.1@, graph_edges(res.0), mdp@.edges.len() as int),
{
    let n = mdp.node_count();
    let mut sub: Graph<u64, u64, Directed, usize> = graph_new();
    let mut new_index: Vec<usize> = Vec::new();
    let mut old_index: Vec<usize> = Vec::new();
    let mut i: usize = 0;
    while i < n
        invariant
            i <= n,
            n == alive@.len(),
            new_index@.len() == i,
            old_index@.len() == graph_nodes(sub).len(),
            graph_edges(sub).len() == 0,
            forall|j: int|
                0 <= j < i && alive@[j] ==> (#[trigger] new_index@[j]) < old_index@.len()
                    && old_index@[new_index@[j] as int] == j,
            forall|k: int|
                0 <= k < old_index@.len() ==> (#[trigger] old_index@[k]) < i && alive@[old_index@[k] as int]
                    && new_index@[old_index@[k] as int] == k,
        decreases n - i,
    {
        if alive[i] {
            let at = graph_add_node(&mut sub, 1);
            new_index.push(at);
            old_index.push(i);
        } else {
            new_index.push(0);
        }
        i = i + 1;
    }
    let m = mdp.edge_count();
    let ghost g = mdp@;
    let mut e: usize = 0;
    while e < m
        invariant
            e <= m,
            mdp.wf(),
            g == mdp@,
            m == g.edges.len(),
            n == alive@.len(),
            n == g.states.len(),
            old_index@.len() == graph_nodes(sub).len(),
            renumbered(alive@, new_index@, old_index@),
            same_edges(g, alive@, new_index@, graph_edges(sub), e as int),
        decreases m - e,
    {
        let edge = mdp.edge(e);
        let ghost before = graph_edges(sub);
        if alive[edge.source] && alive[edge.target] {
            graph_add_edge(&mut sub, new_index[edge.source], new_index[edge.target], edge.weight);
        }
        proof {
            let after = graph_edges(sub);
            let ni = new_index@;
            assert forall|k: int| 0 <= k < after.len() implies exists|x: int|
                0 <= x < e + 1 && alive@[(#[trigger] g.edges[x]).source as int]
                    && alive@[g.edges[x].target as int] && (#[trigger] after[k]).0
                    == ni[g.edges[x].source as int] && after[k].1 == ni[g.edges[x].target as int] by {
                if k < before.len() {
                    let x = choose|x: int|
                        0 <= x < e && alive@[(#[trigger] g.edges[x]).source as int]
                            && alive@[g.edges[x].target as int] && before[k].0
                            == ni[g.edges[x].source as int] && before[k].1
                            == ni[g.edges[x].target as int];
                    assert(after[k] == before[k]);
                    assert(0 <= x < e + 1 && alive@[g.edges[x].source as int]);
                } else {
                    assert(alive@[g.edges[e as int].source as int]);
                }
            }
            assert forall|x: int|
                0 <= x < e + 1 && alive@[(#[trigger] g.edges[x]).source as int]
                    && alive@[g.edges[x].target as int] implies has_edge(
                after,
                ni[g.edges[x].source as int] as int,
                ni[g.edges[x].target as int] as int,
            ) by {
                if x < e {
                    assert(has_edge(
                        before,
                        ni[g.edges[x].source as int] as int,
                        ni[g.edges[x].target as int] as int,
                    ));
                    let k = choose|k: int|
                        0 <= k < before.len() && (#[trigger] before[k]).0
                            == ni[g.edges[x].source as int] as int && before[k].1
                            == ni[g.edges[x].target as int] as int;
                    assert(after[k] == before[k]);
                } else {
                    assert(after[before.len() as int].0 == ni[g.edges[x].source as int]);
                }
            }
        }
        e = e + 1;
    }
    (sub, new_index, old_index)
}

/// The strongly connected components of the part of the process that is
/// left, each as a list of nodes of the process.
pub fn components(mdp: &Mdp, alive: &Vec<bool>) -> (res: Vec<Vec<usize>>)
    requires
        mdp.wf(),
        alive@.len() == mdp@.states.len(),
    ensures
        components_of(mdp@, alive@, res@),
{
    let (sub, new_index, old_index) = smaller_graph(mdp, alive);
    let sccs = graph_scc(&sub);
    let ghost g = mdp@;
    let ghost ni = new_index@;
    let ghost oi = old_index@;
    let ghost edges = graph_edges(sub);
    let mut res: Vec<Vec<usize>> = Vec::new();
    let mut c: usize = 0;
    while c < sccs.len()
        invariant
            c <= sccs@.len(),
            oi == old_index@,
            oi.len() == graph_nodes(sub).len(),
            forall|x: int, y: int|
                0 <= x < sccs@.len() && 0 <= y < sccs@[x]@.len() ==> (#[trigger] sccs@[x]@[y])
                    < graph_nodes(sub).len(),
            res@.len() == c,
            forall|x: int| 0 <= x < c ==> (#[trigger] res@[x])@.len() == sccs@[x]@.len(),
            forall|x: int, y: int|
                0 <= x < c && 0 <= y < res@[x]@.len() ==> (#[trigger] res@[x]@[y])
                    == oi[sccs@[x]@[y] as int],
        decreases sccs@.len() - c,
    {
        let comp = &sccs[c];
        let mut mapped: Vec<usize> = Vec::new();
        let mut i: usize = 0;
        while i < comp.len()
            invariant
                i <= comp@.len(),
                oi == old_index@,
                oi.len() == graph_nodes(sub).len(),
                forall|y: int| 0 <= y < comp@.len() ==> (#[trigger] comp@[y]) < graph_nodes(sub).len(),
                mapped@.len() == i,
                forall|y: int| 0 <= y < i ==> (#[trigger] mapped@[y]) == oi[comp@[y] as int],
            decreases comp@.len() - i,
        {
            mapped.push(old_index[comp[i]]);
            i = i + 1;
        }
        let ghost before = res@;
        res.push(mapped);
        proof {
            assert forall|x: int| 0 <= x < c + 1 implies (#[trigger] res@[x])@.len() == sccs@[x]@.len() by {
                if x < c {
                    assert(res@[x] == before[x]);
                }
            }
            assert forall|x: int, y: int| 0 <= x < c + 1 && 0 <= y < res@[x]@.len() implies (
            #[trigger] res@[x]@[y]) == oi[sccs@[x]@[y] as int] by {
                if x < c {
                    assert(res@[x] == before[x]);
                }
            }
        }
        c = c + 1;
    }
    proof {
        let r = res@;
        let sc = sccs@;
        assert forall|x: int, y: int| 0 <= x < r.len() && 0 <= y < r[x]@.len() implies (
        #[trigger] r[x]@[y]) < alive@.len() && alive@[r[x]@[y] as int] by {
            assert(sc[x]@[y] < oi.len());
            assert(oi[sc[x]@[y] as int] < alive@.len());
        }
        assert forall|v: int| 0 <= v < alive@.len() && alive@[v] implies #[trigger] listed(r, v) by {
            let w = ni[v] as int;
            assert(listed(sc, w));
            let (x, y) = choose|x: int, y: int|
                0 <= x < sc.len() && 0 <= y < sc[x]@.len() && #[trigger] sc[x]@[y] == w;
            assert(r[x]@[y] == v);
        }
        assert forall|x: int, y: int, d: int, j: int|
            0 <= x < r.len() && 0 <= y < r[x]@.len() && 0 <= d < r.len() && 0 <= j < r[d]@.len() && (x
                != d || y != j) implies #[trigger] r[x]@[y] != #[trigger] r[d]@[j] by {
            assert(sc[x]@[y] != sc[d]@[j]);
            assert(ni[oi[sc[x]@[y] as int] as int] == sc[x]@[y]);
            assert(ni[oi[sc[d]@[j] as int] as int] == sc[d]@[j]);
        }
        assert forall|x: int, y: int, d: int, j: int|
            0 <= x < r.len() && 0 <= y < r[x]@.len() && 0 <= d < r.len() && 0 <= j
                < r[d]@.len() implies ((x == d) <==> linked(
            g,
            alive@,
            #[trigger] r[x]@[y] as int,
            #[trigger] r[d]@[j] as int,
        )) by {
            assert(sc[x]@[y] < oi.len());
            assert(sc[d]@[j] < oi.len());
            lemma_linked(g, alive@, ni, oi, edges, sc[x]@[y] as int, sc[d]@[j] as int);
            assert((x == d) <==> strongly_connected(edges, sc[x]@[y] as int, sc[d]@[j] as int));
        }
    }
    res
}

/// `alive` is what is left of `start` after pruning: the largest set of
/// nodes within `start` of which each can stay.
pub open spec fn pruning(g: MdpView, start: Seq<bool>, alive: Seq<bool>) -> bool {
    &&& settled_down(g, alive)
    &&& inside(alive, start)
    &&& forall|x: Seq<bool>| inside(x, start) && #[trigger] settled_down(g, x) ==> inside(x, alive)
}

/// All nodes but the state nodes whose state of the automaton is in `l`.
pub open spec fn without_states(g: MdpView, pairs: Seq<(usize, usize)>, l: Seq<usize>) -> Seq<bool> {
    Seq::new(g.states.len(), |i: int| !(g.states[i] && occurs(l, pairs[i].1)))
}

/// State node `t` stands for a state of the automaton that is in `k`.
pub open spec fn visits(g: MdpView, pairs: Seq<(usize, usize)>, k: Seq<usize>, t: int) -> bool {
    0 <= t < g.states.len() && g.states[t] && occurs(k, pairs[t].1)
}

/// State node `s` lies, among the nodes that are left, in a component of
/// two nodes or more that holds a state node whose state of the automaton
/// is in `k`.
pub open spec fn accepted_in(
    g: MdpView,
    pairs: Seq<(usize, usize)>,
    alive: Seq<bool>,
    k: Seq<usize>,
    s: int,
) -> bool {
    &&& g.is_state(s)
    &&& exists|u: int| u != s && #[trigger] linked(g, alive, s, u)
    &&& exists|t: int| #[trigger] linked(g, alive, s, t) && visits(g, pairs, k, t)
}

/// State node `s` lies in an accepting end component of the acceptance
/// pair: in a component, of two nodes or more and with a state of the
/// pair's second set, of what is left after the states of the pair's first
/// set are removed and the rest is pruned.
pub open spec fn accepted_by(
    g: MdpView,
    pairs: Seq<(usize, usize)>,
    pair: (Vec<usize>, Vec<usize>),
    s: int,
) -> bool {
    exists|alive: Seq<bool>|
        #[trigger] pruning(g, without_states(g, pairs, pair.0@), alive) && accepted_in(
            g,
            pairs,
            alive,
            pair.1@,
            s,
        )
}

/// State node `s` lies in an accepting end component of one of the pairs.
pub open spec fn in_aec(
    g: MdpView,
    pairs: Seq<(usize, usize)>,
    acc: Seq<(Vec<usize>, Vec<usize>)>,
    s: int,
) -> bool {
    exists|p: int| 0 <= p < acc.len() && accepted_by(g, pairs, #[trigger] acc[p], s)
}

/// What is left after pruning is one set.
pub proof fn lemma_pruning_unique(g: MdpView, start: Seq<bool>, a: Seq<bool>, b: Seq<bool>)
    requires
        pruning(g, start, a),
        pruning(g, start, b),
    ensures
        a == b,
{
    assert(inside(a, b));
    assert(inside(b, a));
    assert(a =~= b);
}

/// What `select` picks from the components of what is left are the state
/// nodes of the accepting end components.
proof fn lemma_selected(
    g: MdpView,
    pairs: Seq<(usize, usize)>,
    alive: Seq<bool>,
    k: Seq<usize>,
    comps: Seq<Vec<usize>>,
    good: Seq<bool>,
    v: int,
)
    requires
        g.wf(),
        alive.len() == g.states.len(),
        good.len() == g.states.len(),
        pairs.len() == g.states.len(),
        components_of(g, alive, comps),
        forall|t: int| 0 <= t < good.len() ==> (#[trigger] good[t] <==> visits(g, pairs, k, t)),
        0 <= v < g.states.len(),
        g.states.len() <= usize::MAX,
    ensures
        (g.states[v] && exists|c: int|
            0 <= c < comps.len() && #[trigger] chosen(comps[c]@, good) && occurs(comps[c]@, v as usize))
            <==> accepted_in(g, pairs, alive, k, v),
{
    if g.states[v] && exists|c: int|
        0 <= c < comps.len() && #[trigger] chosen(comps[c]@, good) && occurs(comps[c]@, v as usize) {
        let c = choose|c: int|
            0 <= c < comps.len() && #[trigger] chosen(comps[c]@, good) && occurs(comps[c]@, v as usize);
        let i = choose|i: int| 0 <= i < comps[c]@.len() && (#[trigger] comps[c]@[i]).elem() == v as usize;
        let y = choose|y: int| 0 <= y < comps[c]@.len() && good[(#[trigger] comps[c]@[y]) as int];
        let j = if i == 0 {
            1int
        } else {
            0int
        };
        let u = comps[c]@[j] as int;
        assert(comps[c]@[i] as int == v);
        assert(comps[c]@[i] != comps[c]@[j]);
        assert(linked(g, alive, comps[c]@[i] as int, comps[c]@[j] as int));
        assert(u != v && linked(g, alive, v, u));
        let t = comps[c]@[y] as int;
        assert(linked(g, alive, comps[c]@[i] as int, comps[c]@[y] as int));
        assert(linked(g, alive, v, t) && visits(g, pairs, k, t));
    }
    if accepted_in(g, pairs, alive, k, v) {
        let u = choose|u: int| u != v && #[trigger] linked(g, alive, v, u);
        let t = choose|t: int| #[trigger] linked(g, alive, v, t) && visits(g, pairs, k, t);
        assert(listed(comps, v));
        let (c, i) = choose|c: int, i: int|
            0 <= c < comps.len() && 0 <= i < comps[c]@.len() && #[trigger] comps[c]@[i] == v;
        assert(listed(comps, u));
        let (d, j) = choose|d: int, j: int|
            0 <= d < comps.len() && 0 <= j < comps[d]@.len() && #[trigger] comps[d]@[j] == u;
        assert(linked(g, alive, comps[c]@[i] as int, comps[d]@[j] as int));
        assert(c == d);
        assert(i != j);
        assert(listed(comps, t));
        let (f, y) = choose|f: int, y: int|
            0 <= f < comps.len() && 0 <= y < comps[f]@.len() && #[trigger] comps[f]@[y] == t;
        assert(linked(g, alive, comps[c]@[i] as int, comps[f]@[y] as int));
        assert(c == f);
        assert(good[comps[c]@[y] as int]);
        assert(chosen(comps[c]@, good));
        assert(comps[c]@[i].elem() == v as usize);
        assert(occurs(comps[c]@, v as usize));
    }
}

/// The state nodes of the accepting end components of one acceptance pair.
pub fn accepting_for(product: &Product, pair: &(Vec<usize>, Vec<usize>)) -> (res: Vec<bool>)
    requires
        product.mdp.wf(),
        product.pairs@.len() == product.mdp@.states.len(),
    ensures
        res@.len() == product.mdp@.states.len(),
        forall|s: int|
            0 <= s < res@.len() ==> (#[trigger] res@[s] <==> accepted_by(
                product.mdp@,
                product.pairs@,
                *pair,
                s,
            )),
{
    let mdp = &product.mdp;
    let ghost g = mdp@;
    let ghost pairs = product.pairs@;
    let n = mdp.node_count();
    let is_state = crate::fixpoint::state_mask(mdp);
    let l = &pair.0;
    let k = &pair.1;
    let mut alive: Vec<bool> = Vec::new();
    let mut good: Vec<bool> = Vec::new();
    let mut i: usize = 0;
    while i < n
        invariant
            i <= n,
            n == is_state@.len(),
            is_state@ == g.states,
            pairs == product.pairs@,
            pairs.len() == n,
            alive@.len() == i,
            good@.len() == i,
            forall|j: int|
                0 <= j < i ==> (#[trigger] alive@[j]) == !(g.states[j] && occurs(l@, pairs[j].1)),
            forall|j: int| 0 <= j < i ==> ((#[trigger] good@[j]) <==> visits(g, pairs, k@, j)),
        decreases n - i,
    {
        let q = product.pairs[i].1;
        alive.push(!(is_state[i] && member(l, &q)));
        good.push(is_state[i] && member(k, &q));
        i = i + 1;
    }
    let ghost start = alive@;
    assert(start =~= without_states(g, pairs, l@));
    iterative_remove(mdp, &mut alive);
    assert(pruning(g, start, alive@));
    let comps = components(mdp, &alive);
    let res = select(&comps, &good, &is_state);
    proof {
        assert forall|s: int| 0 <= s < res@.len() implies (#[trigger] res@[s] <==> accepted_by(
            g,
            pairs,
            *pair,
            s,
        )) by {
            lemma_selected(g, pairs, alive@, k@, comps@, good@, s);
            if accepted_by(g, pairs, *pair, s) {
                let other = choose|other: Seq<bool>|
                    #[trigger] pruning(g, without_states(g, pairs, pair.0@), other) && accepted_in(
                        g,
                        pairs,
                        other,
                        pair.1@,
                        s,
                    );
                lemma_pruning_unique(g, start, alive@, other);
            }
        }
    }
    res
}

/// The accepting end components of the product: the state nodes that lie
/// in an accepting end component of one of the acceptance pairs.
pub fn aec(acc: &Vec<(Vec<usize>, Vec<usize>)>, product: &Product) -> (res: Vec<bool>)
    requires
        product.mdp.wf(),
        product.pairs@.len() == product.mdp@.states.len(),
    ensures
        res@.len() == product.mdp@.states.len(),
        forall|s: int|
            0 <= s < res@.len() ==> (#[trigger] res@[s] <==> in_aec(
                product.mdp@,
                product.pairs@,
                acc@,
                s,
            )),
        forall|i: int| 0 <= i < res@.len() && res@[i] ==> product.mdp@.states[i],
{
    let ghost g = product.mdp@;
    let ghost pairs = product.pairs@;
    let n = product.mdp.node_count();
    let mut res: Vec<bool> = Vec::new();
    let mut i: usize = 0;
    while i < n
        invariant
            i <= n,
            res@.len() == i,
            forall|j: int| 0 <= j < i ==> !(#[trigger] res@[j]),
        decreases n - i,
    {
        res.push(false);
        i = i + 1;
    }
    let mut p: usize = 0;
    while p < acc.len()
        invariant
            p <= acc@.len(),
            product.mdp.wf(),
            g == product.mdp@,
            pairs == product.pairs@,
            n == g.states.len(),
            pairs.len() == n,
            res@.len() == n,
            forall|s: int|
                0 <= s < n ==> (#[trigger] res@[s] <==> exists|x: int|
                    0 <= x < p && accepted_by(g, pairs, #[trigger] acc@[x], s)),
        decreases acc@.len() - p,
    {
        let found = accepting_for(product, &acc[p]);
        let ghost before = res@;
        let mut i: usize = 0;
        while i < n
            invariant
                i <= n,
                res@.len() == n,
                found@.len() == n,
                before.len() == n,
                forall|j: int| 0 <= j < i ==> (#[trigger] res@[j]) == (before[j] || found@[j]),
                forall|j: int| i <= j < n ==> (#[trigger] res@[j]) == before[j],
            decreases n - i,
        {
            if found[i] {
                res.set(i, true);
            }
            i = i + 1;
        }
        proof {
            assert forall|s: int| 0 <= s < n implies (#[trigger] res@[s] <==> exists|x: int|
                0 <= x < p + 1 && accepted_by(g, pairs, #[trigger] acc@[x], s)) by {
                assert(found@[s] <==> accepted_by(g, pairs, acc@[p as int], s));
                if before[s] {
                    let x = choose|x: int| 0 <= x < p && accepted_by(g, pairs, #[trigger] acc@[x], s);
                    assert(0 <= x < p + 1);
                }
                if exists|x: int| 0 <= x < p + 1 && accepted_by(g, pairs, #[trigger] acc@[x], s) {
                    let x = choose|x: int|
                        0 <= x < p + 1 && accepted_by(g, pairs, #[trigger] acc@[x], s);
                    if x < p {
                        assert(before[s]);
                    }
                }
            }
        }
        p = p + 1;
    }
    proof {
        assert forall|i: int| 0 <= i < res@.len() && res@[i] implies g.states[i] by {
            let x = choose|x: int| 0 <= x < acc@.len() && accepted_by(g, pairs, #[trigger] acc@[x], i);
            let alive = choose|alive: Seq<bool>|
                #[trigger] pruning(g, without_states(g, pairs, acc@[x].0@), alive) && accepted_in(
                    g,
                    pairs,
                    alive,
                    acc@[x].1@,
                    i,
                );
        }
    }
    res
}

/// The product of the process with the automaton, and its accepting end
/// components.
pub fn cross_mdp(dra: &DRA, pctl_info: &PctlInfo) -> (res: (Product, Vec<bool>))
    requires
        dra.wf(),
        pctl_info.wf(),
    ensures
        res.0.is_product_of(pctl_info, dra),
        res.1@.len() == res.0.mdp@.states.len(),
        forall|s: int|
            0 <= s < res.1@.len() ==> (#[trigger] res.1@[s] <==> in_aec(
                res.0.mdp@,
                res.0.pairs@,
                dra.acc@,
                s,
            )),
{
    let product = build_product(dra, pctl_info);
    let accepting = aec(&dra.acc, &product);
    (product, accepting)
}

} // verus!
