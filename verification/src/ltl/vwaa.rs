//! Very weak alternating automata: the first automaton of a formula. Its
//! states are the formulae that are no conjunction and no disjunction; a
//! transition leads to a conjunction of states.

use crate::listset::{
    add_all, copy_all, distinct, elems, lemma_push_elems, member, occurs, put, Element,
};
use crate::ltl::common::{
    bar, bar_op, clash, flat, lemma_flat_member, single, Alphabet, Conjuction,
};
use crate::ltl::formula::{conj, temporal, And, Ltl, PhiOp, True};
use vstd::prelude::*;

verus! {

/// A transition: the label under which it is taken, and the formula to
/// which it leads.
#[derive(Debug)]
pub struct Transition {
    pub props: Alphabet,
    pub target: PhiOp,
}

impl Element for Transition {
    type Model = (Set<Ltl>, Ltl);

    open spec fn elem(&self) -> (Set<Ltl>, Ltl) {
        (self.props@, self.target@)
    }

    fn eq_elem(&self, other: &Transition) -> (res: bool) {
        self.props.eq_elem(&other.props) && self.target.same(&other.target)
    }

    fn copy_elem(&self) -> (res: Transition) {
        Transition { props: self.props.copy_elem(), target: self.target.duplicate() }
    }
}

/// Both transitions can be taken under one letter.
pub open spec fn joinable(a: (Set<Ltl>, Ltl), b: (Set<Ltl>, Ltl)) -> bool {
    !clash(a.0.union(b.0))
}

/// The transition that takes both: it asks for what both labels ask for
/// and leads to the conjunction of the targets.
pub open spec fn join(a: (Set<Ltl>, Ltl), b: (Set<Ltl>, Ltl)) -> (Set<Ltl>, Ltl) {
    (a.0.union(b.0), conj(a.1, b.1))
}

/// The product of two sets of transitions: each transition of one joined
/// with each of the other with which it can be taken.
pub open spec fn cross(l: Set<(Set<Ltl>, Ltl)>, r: Set<(Set<Ltl>, Ltl)>) -> Set<(Set<Ltl>, Ltl)> {
    Set::new(
        |t: (Set<Ltl>, Ltl)|
            exists|a: (Set<Ltl>, Ltl), b: (Set<Ltl>, Ltl)|
                l.contains(a) && r.contains(b) && joinable(a, b) && t == #[trigger] join(a, b),
    )
}

/// The one transition that leads to `f` under every letter.
pub open spec fn stay(f: Ltl) -> Set<(Set<Ltl>, Ltl)> {
    Set::<(Set<Ltl>, Ltl)>::empty().insert((Set::<Ltl>::empty(), f))
}

/// The transitions that lead, under every letter, to the members of `s`.
pub open spec fn step_to(s: Set<Ltl>) -> Set<(Set<Ltl>, Ltl)> {
    Set::new(|t: (Set<Ltl>, Ltl)| t.0 == Set::<Ltl>::empty() && s.contains(t.1))
}

/// The transitions of a formula.
pub open spec fn delta(f: Ltl) -> Set<(Set<Ltl>, Ltl)>
    decreases f,
{
    match f {
        Ltl::False => Set::empty(),
        Ltl::True => stay(Ltl::True),
        Ltl::AP(_) => Set::<(Set<Ltl>, Ltl)>::empty().insert(
            (Set::<Ltl>::empty().insert(f), Ltl::True),
        ),
        Ltl::Not(_) => Set::<(Set<Ltl>, Ltl)>::empty().insert(
            (Set::<Ltl>::empty().insert(f), Ltl::True),
        ),
        Ltl::Until(l, r) => delta(*r).union(cross(delta(*l), stay(f))),
        Ltl::Next(x) => step_to(bar(*x)),
        Ltl::Release(l, r) => cross(stay(f).union(delta(*l)), delta(*r)),
        Ltl::And(l, r) => cross(delta(*l), delta(*r)),
        Ltl::Or(l, r) => delta(*l).union(delta(*r)),
    }
}

impl Transition {
    pub fn new(props: Alphabet, target: PhiOp) -> (res: Transition)
        ensures
            res.elem() == (props@, target@),
            res.props == props,
    {
        Transition { props, target }
    }

    /// The product of two sets of transitions.
    pub fn cross_op(left_set: &Vec<Transition>, right_set: &Vec<Transition>) -> (res: Vec<
        Transition,
    >)
        ensures
            elems(res@) == cross(elems(left_set@), elems(right_set@)),
            distinct(res@),
    {
        let mut res: Vec<Transition> = Vec::new();
        let mut i: usize = 0;
        while i < left_set.len()
            invariant
                i <= left_set@.len(),
                distinct(res@),
                forall|t: (Set<Ltl>, Ltl)|
                    occurs(res@, t) <==> exists|a: int, b: int|
                        0 <= a < i && 0 <= b < right_set@.len() && joinable(
                            left_set@[a].elem(),
                            right_set@[b].elem(),
                        ) && t == #[trigger] join(left_set@[a].elem(), right_set@[b].elem()),
            decreases left_set@.len() - i,
        {
            let mut j: usize = 0;
            while j < right_set.len()
                invariant
                    i < left_set@.len(),
                    j <= right_set@.len(),
                    distinct(res@),
                    forall|t: (Set<Ltl>, Ltl)|
                        occurs(res@, t) <==> exists|a: int, b: int|
                            (0 <= a < i && 0 <= b < right_set@.len() || a == i && 0 <= b < j)
                                && joinable(left_set@[a].elem(), right_set@[b].elem()) && t
                                == #[trigger] join(left_set@[a].elem(), right_set@[b].elem()),
                decreases right_set@.len() - j,
            {
                let ghost before = res@;
                let ghost la = left_set@[i as int].elem();
                let ghost rb = right_set@[j as int].elem();
                match left_set[i].props.intersection(&right_set[j].props) {
                    None => {},
                    Some(props) => {
                        let target = And::create(
                            left_set[i].target.duplicate(),
                            right_set[j].target.duplicate(),
                        );
                        let both = Transition { props, target };
                        assert(both.elem() == join(la, rb));
                        proof {
                            lemma_push_elems(before, both);
                        }
                        put(&mut res, both);
                        assert(forall|t: (Set<Ltl>, Ltl)|
                            elems(res@).contains(t) <==> elems(before).insert(join(la, rb)).contains(t));
                    },
                }
                proof {
                    assert forall|t: (Set<Ltl>, Ltl)| occurs(res@, t) <==> exists|a: int, b: int|
                        (0 <= a < i && 0 <= b < right_set@.len() || a == i && 0 <= b < j + 1)
                            && joinable(left_set@[a].elem(), right_set@[b].elem()) && t
                            == #[trigger] join(left_set@[a].elem(), right_set@[b].elem()) by {
                        assert(occurs(res@, t) <==> elems(res@).contains(t));
                        assert(occurs(before, t) <==> elems(before).contains(t));
                        if joinable(la, rb) {
                            assert(occurs(res@, t) <==> occurs(before, t) || t == join(la, rb));
                        } else {
                            assert(occurs(res@, t) <==> occurs(before, t));
                        }
                    }
                }
                j = j + 1;
            }
            i = i + 1;
        }
        proof {
            let l = elems(left_set@);
            let r = elems(right_set@);
            assert forall|t: (Set<Ltl>, Ltl)| elems(res@).contains(t) <==> cross(l, r).contains(t) by {
                if elems(res@).contains(t) {
                    let (a, b) = choose|a: int, b: int|
                        0 <= a < left_set@.len() && 0 <= b < right_set@.len() && joinable(
                            left_set@[a].elem(),
                            right_set@[b].elem(),
                        ) && t == #[trigger] join(left_set@[a].elem(), right_set@[b].elem());
                    assert(occurs(left_set@, left_set@[a].elem()));
                    assert(occurs(right_set@, right_set@[b].elem()));
                    assert(l.contains(left_set@[a].elem()) && r.contains(right_set@[b].elem()));
                }
                if cross(l, r).contains(t) {
                    let (x, y) = choose|x: (Set<Ltl>, Ltl), y: (Set<Ltl>, Ltl)|
                        l.contains(x) && r.contains(y) && joinable(x, y) && t == #[trigger] join(x, y);
                    let a = choose|a: int| 0 <= a < left_set@.len() && (#[trigger] left_set@[a]).elem() == x;
                    let b = choose|b: int| 0 <= b < right_set@.len() && (#[trigger] right_set@[b]).elem() == y;
                    assert(t == join(left_set@[a].elem(), right_set@[b].elem()));
                }
            }
            assert(elems(res@) =~= cross(l, r));
        }
        res
    }
}

/// The list that holds the one transition to `phi` under every letter.
fn stay_list(phi: &PhiOp) -> (res: Vec<Transition>)
    ensures
        elems(res@) == stay(phi@),
        distinct(res@),
{
    let mut res: Vec<Transition> = Vec::new();
    assert(elems(res@) =~= Set::<(Set<Ltl>, Ltl)>::empty());
    put(&mut res, Transition::new(Alphabet::full(), phi.duplicate()));
    res
}

/// The transitions of a formula that is no conjunction and no disjunction.
pub fn small_delta(phi: &PhiOp) -> (res: Vec<Transition>)
    requires
        temporal(phi@),
    ensures
        elems(res@) == delta(phi@),
        distinct(res@),
    decreases phi, 0int,
{
    match phi {
        PhiOp::False(_) => {
            let res: Vec<Transition> = Vec::new();
            assert(elems(res@) =~= Set::<(Set<Ltl>, Ltl)>::empty());
            res
        },
        PhiOp::True(_) => stay_list(phi),
        PhiOp::AP(_) | PhiOp::Not(_) => {
            let mut res: Vec<Transition> = Vec::new();
            assert(elems(res@) =~= Set::<(Set<Ltl>, Ltl)>::empty());
            put(&mut res, Transition::new(Alphabet::with_prop(phi.duplicate()), PhiOp::True(True)));
            res
        },
        PhiOp::Until(until) => {
            let big_delta_right = big_delta(&until.right_phi);
            let big_delta_left = big_delta(&until.left_phi);
            let normal_set = stay_list(phi);
            let mut res = Transition::cross_op(&big_delta_left, &normal_set);
            add_all(&mut res, &big_delta_right);
            proof {
                assert(elems(res@) =~= delta(phi@));
            }
            res
        },
        PhiOp::Next(next) => {
            let bar_phi = bar_op(&next.phi);
            let mut res: Vec<Transition> = Vec::new();
            let mut i: usize = 0;
            while i < bar_phi.len()
                invariant
                    i <= bar_phi@.len(),
                    distinct(res@),
                    forall|t: (Set<Ltl>, Ltl)|
                        occurs(res@, t) <==> t.0 == Set::<Ltl>::empty() && exists|a: int|
                            0 <= a < i && (#[trigger] bar_phi@[a])@ == t.1,
                decreases bar_phi@.len() - i,
            {
                let ghost before = res@;
                let item = Transition::new(Alphabet::full(), bar_phi[i].duplicate());
                proof {
                    lemma_push_elems(before, item);
                }
                put(&mut res, item);
                proof {
                    assert forall|t: (Set<Ltl>, Ltl)|
                        occurs(res@, t) <==> t.0 == Set::<Ltl>::empty() && exists|a: int|
                            0 <= a < i + 1 && (#[trigger] bar_phi@[a])@ == t.1 by {
                        assert(occurs(res@, t) <==> elems(res@).contains(t));
                        assert(occurs(before, t) <==> elems(before).contains(t));
                        assert(occurs(res@, t) <==> occurs(before, t) || t == item.elem());
                        if t == item.elem() {
                            assert(bar_phi@[i as int]@ == t.1);
                        }
                    }
                }
                i = i + 1;
            }
            proof {
                assert forall|t: (Set<Ltl>, Ltl)| elems(res@).contains(t) <==> step_to(
                    bar(next.phi@),
                ).contains(t) by {
                    if elems(res@).contains(t) {
                        let a = choose|a: int| 0 <= a < bar_phi@.len() && (#[trigger] bar_phi@[a])@ == t.1;
                        assert(occurs(bar_phi@, bar_phi@[a].elem()));
                    }
                    if step_to(bar(next.phi@)).contains(t) {
                        assert(elems(bar_phi@).contains(t.1));
                        let a = choose|a: int| 0 <= a < bar_phi@.len() && (#[trigger] bar_phi@[a]).elem() == t.1;
                        assert(bar_phi@[a]@ == t.1);
                    }
                }
                assert(elems(res@) =~= delta(phi@));
            }
            res
        },
        PhiOp::Release(release) => {
            let big_delta_right = big_delta(&release.right_phi);
            let big_delta_left = big_delta(&release.left_phi);
            let mut right_normal_set = stay_list(phi);
            add_all(&mut right_normal_set, &big_delta_left);
            Transition::cross_op(&right_normal_set, &big_delta_right)
        },
        _ => Vec::new(),
    }
}

/// The transitions of any formula: a conjunction gives the product of what
/// its sides give, a disjunction gives both.
pub fn big_delta(phi: &PhiOp) -> (res: Vec<Transition>)
    ensures
        elems(res@) == delta(phi@),
        distinct(res@),
    decreases phi, 1int,
{
    match phi {
        PhiOp::And(and) => {
            let left_and = big_delta(&and.left_phi);
            let right_and = big_delta(&and.right_phi);
            Transition::cross_op(&left_and, &right_and)
        },
        PhiOp::Or(or) => {
            let mut res = big_delta(&or.left_phi);
            let right_or = big_delta(&or.right_phi);
            add_all(&mut res, &right_or);
            res
        },
        _ => small_delta(phi),
    }
}

/// A state with its transitions.
#[derive(Debug)]
pub struct VwaaState {
    pub state: Conjuction,
    pub transitions: Vec<Transition>,
}

/// A very weak alternating automaton.
#[derive(Debug)]
#[allow(clippy::upper_case_acronyms)]
pub struct VWAA {
    /// The initial conjunctions of states.
    pub initial: Vec<Conjuction>,
    /// Each state, as the conjunction of which it is the one member, with
    /// its transitions.
    pub delta: Vec<VwaaState>,
    /// The states that a run must leave: those that are an until.
    pub final_states: Vec<PhiOp>,
}

/// `psi` is a member of an initial conjunction of the automaton of `f`.
pub open spec fn starts(f: Ltl, psi: Ltl) -> bool {
    exists|c: Ltl| #[trigger] bar(f).contains(c) && flat(c).contains(psi)
}

/// A transition of `from` leads to a conjunction of which `psi` is a
/// member.
pub open spec fn leads(from: Ltl, psi: Ltl) -> bool {
    exists|t: (Set<Ltl>, Ltl)| #[trigger] delta(from).contains(t) && flat(t.1).contains(psi)
}

/// `path` is a run through the automaton of `f`: it starts at a member of
/// an initial conjunction, and each step follows a transition to a member
/// of its target.
pub open spec fn is_run(f: Ltl, path: Seq<Ltl>) -> bool {
    &&& path.len() > 0
    &&& starts(f, path[0])
    &&& forall|i: int| 0 <= i < path.len() - 1 ==> #[trigger] leads(path[i], path[i + 1])
}

/// `psi` is a state of the automaton of `f`: some run ends in it.
#[verifier::opaque]
pub open spec fn reached(f: Ltl, psi: Ltl) -> bool {
    exists|path: Seq<Ltl>| #[trigger] is_run(f, path) && path[path.len() - 1] == psi
}

/// Entry `e` holds state `psi` with its transitions.
pub open spec fn holds_state(e: VwaaState, psi: Ltl) -> bool {
    e.state@ == single(psi) && elems(e.transitions@) == delta(psi)
}

/// Entry `e` holds a state of the automaton of `f` with its transitions.
pub open spec fn entered(f: Ltl, e: VwaaState) -> bool {
    exists|psi: Ltl| reached(f, psi) && #[trigger] holds_state(e, psi)
}

/// Some entry holds state `psi`.
pub open spec fn keyed(d: Seq<VwaaState>, psi: Ltl) -> bool {
    exists|i: int| 0 <= i < d.len() && (#[trigger] d[i]).state@ == single(psi)
}

/// One of the first `upto` conjunctions of the list is `s`.
pub open spec fn queued(q: Seq<Conjuction>, s: Set<Ltl>, upto: int) -> bool {
    exists|i: int| 0 <= i < upto && i < q.len() && (#[trigger] q[i])@ == s
}

impl VWAA {
    /// The automaton is that of formula `f`: its initial conjunctions are
    /// those of the lifting of `f`; its states are the formulae that are
    /// reached from them, each once and with its transitions; its final
    /// states are the states that are an until.
    pub open spec fn is_automaton_of(&self, f: Ltl) -> bool {
        &&& elems(self.initial@) == Set::new(
            |s: Set<Ltl>| exists|c: Ltl| #[trigger] bar(f).contains(c) && s == flat(c),
        )
        &&& forall|i: int| 0 <= i < self.delta@.len() ==> entered(f, #[trigger] self.delta@[i])
        &&& forall|i: int, j: int|
            0 <= i < j < self.delta@.len() ==> (#[trigger] self.delta@[i]).state@ != (
            #[trigger] self.delta@[j]).state@
        &&& forall|psi: Ltl| reached(f, psi) ==> #[trigger] keyed(self.delta@, psi)
        &&& elems(self.final_states@) == Set::new(|u: Ltl| u is Until && reached(f, u))
    }
}

/// What holds of the list of conjunctions that are still to be visited
/// and of the states that were entered, while the automaton of `f` is
/// built. `psis` names the state of each entry.
pub open spec fn building(f: Ltl, q: Seq<Conjuction>, head: int, d: Seq<VwaaState>, psis: Seq<Ltl>) -> bool {
    &&& 0 <= head <= q.len()
    &&& psis.len() == d.len()
    &&& forall|c: Ltl| #[trigger] bar(f).contains(c) ==> queued(q, flat(c), q.len() as int)
    &&& forall|i: int, m: Ltl|
        0 <= i < q.len() && #[trigger] q[i]@.contains(m) ==> reached(f, m) && !(m is And)
    &&& forall|i: int| 0 <= i < d.len() ==> holds_state(#[trigger] d[i], psis[i])
    &&& forall|i: int| 0 <= i < psis.len() ==> reached(f, #[trigger] psis[i])
    &&& forall|i: int, j: int| 0 <= i < j < d.len() ==> #[trigger] psis[i] != #[trigger] psis[j]
    &&& forall|i: int, m: Ltl| 0 <= i < head && #[trigger] q[i]@.contains(m) ==> keyed(d, m)
}

/// Each transition of each entered state has its target among the
/// conjunctions that are or were to be visited.
pub open spec fn followed(q: Seq<Conjuction>, d: Seq<VwaaState>, psis: Seq<Ltl>, upto: int) -> bool {
    forall|i: int, t: (Set<Ltl>, Ltl)|
        0 <= i < upto && #[trigger] delta(psis[i]).contains(t) ==> queued(q, flat(t.1), q.len() as int)
}

/// Once every conjunction was visited, every state in which a run ends
/// has been entered.
pub proof fn lemma_all_entered(f: Ltl, q: Seq<Conjuction>, d: Seq<VwaaState>, psis: Seq<Ltl>, path: Seq<Ltl>)
    requires
        building(f, q, q.len() as int, d, psis),
        followed(q, d, psis, d.len() as int),
        is_run(f, path),
    ensures
        keyed(d, path[path.len() - 1]),
    decreases path.len(),
{
    let psi = path[path.len() - 1];
    if path.len() == 1 {
        let c = choose|c: Ltl| #[trigger] bar(f).contains(c) && flat(c).contains(psi);
        assert(queued(q, flat(c), q.len() as int));
        let i = choose|i: int| 0 <= i < q.len() && (#[trigger] q[i])@ == flat(c);
        assert(q[i]@.contains(psi));
    } else {
        let before = path.drop_last();
        let from = before[before.len() - 1];
        assert(is_run(f, before)) by {
            assert forall|i: int| 0 <= i < before.len() - 1 implies #[trigger] leads(before[i], before[i + 1]) by {
                assert(leads(path[i], path[i + 1]));
            }
        }
        lemma_all_entered(f, q, d, psis, before);
        assert(leads(path[path.len() - 2], path[path.len() - 2 + 1]));
        let i = choose|i: int| 0 <= i < d.len() && (#[trigger] d[i]).state@ == single(from);
        assert(holds_state(d[i], psis[i]));
        assert(single(psis[i]).contains(from));
        assert(psis[i] == from);
        let t = choose|t: (Set<Ltl>, Ltl)| #[trigger] delta(from).contains(t) && flat(t.1).contains(psi);
        assert(queued(q, flat(t.1), q.len() as int));
        let j = choose|j: int| 0 <= j < q.len() && (#[trigger] q[j])@ == flat(t.1);
        assert(q[j]@.contains(psi));
    }
}

/// A member of the target of a transition of a reached state is reached.
pub proof fn lemma_reached_step(f: Ltl, from: Ltl, t: (Set<Ltl>, Ltl), m: Ltl)
    requires
        reached(f, from),
        delta(from).contains(t),
        flat(t.1).contains(m),
    ensures
        reached(f, m),
        !(m is And),
{
    reveal(reached);
    let path = choose|path: Seq<Ltl>| #[trigger] is_run(f, path) && path[path.len() - 1] == from;
    let longer = path.push(m);
    assert(leads(from, m));
    assert forall|i: int| 0 <= i < longer.len() - 1 implies #[trigger] leads(longer[i], longer[i + 1]) by {
        if i < path.len() - 1 {
            assert(leads(path[i], path[i + 1]));
        }
    }
    assert(is_run(f, longer) && longer[longer.len() - 1] == m);
    lemma_flat_member(t.1, m);
}

/// A member of an initial conjunction is reached.
pub proof fn lemma_reached_start(f: Ltl, c: Ltl, m: Ltl)
    requires
        bar(f).contains(c),
        flat(c).contains(m),
    ensures
        reached(f, m),
        !(m is And),
{
    reveal(reached);
    let path = seq![m];
    assert(starts(f, m));
    assert(is_run(f, path) && path[path.len() - 1] == m);
    lemma_flat_member(c, m);
}

/// The place of the entry with state `key`.
fn find_state(d: &Vec<VwaaState>, key: &Conjuction) -> (res: Option<usize>)
    ensures
        res is None <==> forall|i: int| 0 <= i < d@.len() ==> (#[trigger] d@[i]).state@ != key@,
        res matches Some(i) ==> i < d@.len() && d@[i as int].state@ == key@,
{
    let mut i: usize = 0;
    while i < d.len()
        invariant
            i <= d@.len(),
            forall|j: int| 0 <= j < i ==> (#[trigger] d@[j]).state@ != key@,
        decreases d@.len() - i,
    {
        if d[i].state.eq_elem(key) {
            return Some(i);
        }
        i = i + 1;
    }
    None
}

/// Entering state `psi`, with the targets of its transitions appended to
/// the list of conjunctions to be visited, keeps what holds while the
/// automaton is built.
proof fn lemma_enter(
    f: Ltl,
    old_q: Seq<Conjuction>,
    q: Seq<Conjuction>,
    head: int,
    old_d: Seq<VwaaState>,
    d: Seq<VwaaState>,
    old_psis: Seq<Ltl>,
    psis: Seq<Ltl>,
    psi: Ltl,
    e: VwaaState,
    ts: Seq<Transition>,
)
    requires
        building(f, old_q, head, old_d, old_psis),
        followed(old_q, old_d, old_psis, old_d.len() as int),
        reached(f, psi),
        holds_state(e, psi),
        elems(ts) == delta(psi),
        forall|i: int| 0 <= i < old_d.len() ==> (#[trigger] old_d[i]).state@ != single(psi),
        d == old_d.push(e),
        psis == old_psis.push(psi),
        q.len() == old_q.len() + ts.len(),
        forall|x: int| 0 <= x < old_q.len() ==> q[x] == old_q[x],
        forall|j: int| 0 <= j < ts.len() ==> (#[trigger] q[old_q.len() + j])@ == flat(ts[j].target@),
    ensures
        building(f, q, head, d, psis),
        followed(q, d, psis, d.len() as int),
        keyed(d, psi),
        forall|m: Ltl| keyed(old_d, m) ==> keyed(d, m),
{
    assert forall|m: Ltl| keyed(old_d, m) implies keyed(d, m) by {
        let y = choose|y: int| 0 <= y < old_d.len() && (#[trigger] old_d[y]).state@ == single(m);
        assert(d[y].state@ == single(m));
    }
    assert(d[old_d.len() as int].state@ == single(psi));
    assert(keyed(d, psi));
    assert forall|s: Set<Ltl>| queued(old_q, s, old_q.len() as int) implies queued(
        q,
        s,
        q.len() as int,
    ) by {
        let y = choose|y: int| 0 <= y < old_q.len() && (#[trigger] old_q[y])@ == s;
        assert(q[y]@ == s);
    }
    assert forall|x: int, m: Ltl| 0 <= x < q.len() && #[trigger] q[x]@.contains(m) implies reached(
        f,
        m,
    ) && !(m is And) by {
        if x < old_q.len() {
            assert(old_q[x]@.contains(m));
        } else {
            let j = x - old_q.len();
            assert(q[old_q.len() + j]@ == flat(ts[j].target@));
            let t = ts[j].elem();
            assert(occurs(ts, t));
            assert(elems(ts).contains(t));
            lemma_reached_step(f, psi, t, m);
        }
    }
    assert forall|x: int| 0 <= x < d.len() implies holds_state(#[trigger] d[x], psis[x]) by {
        if x < old_d.len() {
            assert(holds_state(old_d[x], old_psis[x]));
        }
    }
    assert forall|x: int| 0 <= x < psis.len() implies reached(f, #[trigger] psis[x]) by {
        if x < old_psis.len() {
            assert(reached(f, old_psis[x]));
        }
    }
    assert forall|x: int, y: int| 0 <= x < y < d.len() implies #[trigger] psis[x] != #[trigger] psis[y] by {
        if y == old_d.len() {
            assert(holds_state(old_d[x], old_psis[x]));
        }
    }
    assert forall|x: int, m: Ltl| 0 <= x < head && #[trigger] q[x]@.contains(m) implies keyed(d, m) by {
        assert(old_q[x]@.contains(m));
    }
    assert forall|c: Ltl| #[trigger] bar(f).contains(c) implies queued(q, flat(c), q.len() as int) by {
        assert(queued(old_q, flat(c), old_q.len() as int));
    }
    assert forall|x: int, t: (Set<Ltl>, Ltl)|
        0 <= x < d.len() && #[trigger] delta(psis[x]).contains(t) implies queued(
            q,
            flat(t.1),
            q.len() as int,
        ) by {
        if x < old_d.len() {
            assert(delta(old_psis[x]).contains(t));
            assert(queued(old_q, flat(t.1), old_q.len() as int));
        } else {
            assert(elems(ts).contains(t));
            let y = choose|y: int| 0 <= y < ts.len() && (#[trigger] ts[y]).elem() == t;
            assert(q[old_q.len() + y]@ == flat(ts[y].target@));
        }
    }
}

/// Appends the conjunction that each transition leads to.
fn enqueue_targets(queue: &mut Vec<Conjuction>, transitions: &Vec<Transition>)
    ensures
        final(queue)@.len() == old(queue)@.len() + transitions@.len(),
        forall|x: int| 0 <= x < old(queue)@.len() ==> final(queue)@[x] == old(queue)@[x],
        forall|j: int|
            0 <= j < transitions@.len() ==> (#[trigger] final(queue)@[old(queue)@.len() + j])@ == flat(
                transitions@[j].target@,
            ),
{
    let mut j: usize = 0;
    while j < transitions.len()
        invariant
            j <= transitions@.len(),
            queue@.len() == old(queue)@.len() + j,
            forall|x: int| 0 <= x < old(queue)@.len() ==> queue@[x] == old(queue)@[x],
            forall|y: int|
                0 <= y < j ==> (#[trigger] queue@[old(queue)@.len() + y])@ == flat(
                    transitions@[y].target@,
                ),
        decreases transitions@.len() - j,
    {
        let target = Conjuction(And::flatten(&transitions[j].target));
        queue.push(target);
        j = j + 1;
    }
}

/// The initial conjunctions of the automaton of `phi`, as a set and as the
/// list from which the visits start.
fn seed(phi: &PhiOp) -> (res: (Vec<Conjuction>, Vec<Conjuction>))
    ensures
        elems(res.0@) == Set::new(
            |s: Set<Ltl>| exists|c: Ltl| #[trigger] bar(phi@).contains(c) && s == flat(c),
        ),
        building(phi@, res.1@, 0, Seq::<VwaaState>::empty(), Seq::<Ltl>::empty()),
        followed(res.1@, Seq::<VwaaState>::empty(), Seq::<Ltl>::empty(), 0),
{
    let ghost f = phi@;
    let lifted = bar_op(phi);
    let mut initial: Vec<Conjuction> = Vec::new();
    let mut queue: Vec<Conjuction> = Vec::new();
    let mut i: usize = 0;
    while i < lifted.len()
        invariant
            i <= lifted@.len(),
            elems(lifted@) == bar(f),
            queue@.len() == i,
            forall|j: int| 0 <= j < i ==> (#[trigger] queue@[j])@ == flat(lifted@[j]@),
            forall|s: Set<Ltl>|
                occurs(initial@, s) <==> exists|j: int| 0 <= j < i && s == flat((#[trigger] lifted@[j])@),
        decreases lifted@.len() - i,
    {
        let c = Conjuction(And::flatten(&lifted[i]));
        let ghost before = initial@;
        let copy = c.copy_elem();
        proof {
            lemma_push_elems(before, copy);
        }
        put(&mut initial, copy);
        queue.push(c);
        proof {
            assert forall|s: Set<Ltl>|
                occurs(initial@, s) <==> exists|j: int|
                    0 <= j < i + 1 && s == flat((#[trigger] lifted@[j])@) by {
                assert(occurs(initial@, s) <==> elems(initial@).contains(s));
                assert(occurs(before, s) <==> elems(before).contains(s));
                assert(occurs(initial@, s) <==> occurs(before, s) || s == flat(lifted@[i as int]@));
            }
        }
        i = i + 1;
    }
    proof {
        assert forall|s: Set<Ltl>|
            elems(initial@).contains(s) <==> (exists|c: Ltl| #[trigger] bar(f).contains(c) && s == flat(c)) by {
            if elems(initial@).contains(s) {
                let j = choose|j: int| 0 <= j < lifted@.len() && s == flat((#[trigger] lifted@[j])@);
                assert(occurs(lifted@, lifted@[j].elem()));
                assert(bar(f).contains(lifted@[j]@));
            }
            if exists|c: Ltl| #[trigger] bar(f).contains(c) && s == flat(c) {
                let c = choose|c: Ltl| #[trigger] bar(f).contains(c) && s == flat(c);
                assert(elems(lifted@).contains(c));
                let j = choose|j: int| 0 <= j < lifted@.len() && (#[trigger] lifted@[j]).elem() == c;
                assert(s == flat(lifted@[j]@));
            }
        }
        assert(elems(initial@) =~= Set::new(
            |s: Set<Ltl>| exists|c: Ltl| #[trigger] bar(f).contains(c) && s == flat(c),
        ));
        assert forall|c: Ltl| #[trigger] bar(f).contains(c) implies queued(
            queue@,
            flat(c),
            queue@.len() as int,
        ) by {
            assert(elems(lifted@).contains(c));
            let j = choose|j: int| 0 <= j < lifted@.len() && (#[trigger] lifted@[j]).elem() == c;
            assert(queue@[j]@ == flat(c));
        }
        assert forall|j: int, m: Ltl|
            0 <= j < queue@.len() && #[trigger] queue@[j]@.contains(m) implies reached(f, m) && !(
            m is And) by {
            assert(occurs(lifted@, lifted@[j].elem()));
            assert(bar(f).contains(lifted@[j]@));
            lemma_reached_start(f, lifted@[j]@, m);
        }
    }
    (initial, queue)
}

/// The states that are an until, among the states that were entered.
fn untils_of(d: &Vec<VwaaState>, Ghost(psis): Ghost<Seq<Ltl>>) -> (res: Vec<PhiOp>)
    requires
        psis.len() == d@.len(),
        forall|i: int| 0 <= i < d@.len() ==> holds_state(#[trigger] d@[i], psis[i]),
    ensures
        forall|u: Ltl|
            elems(res@).contains(u) <==> u is Until && exists|j: int|
                0 <= j < psis.len() && #[trigger] psis[j] == u,
{
    let mut final_states: Vec<PhiOp> = Vec::new();
    let mut i: usize = 0;
    while i < d.len()
        invariant
            i <= d@.len(),
            psis.len() == d@.len(),
            forall|i: int| 0 <= i < d@.len() ==> holds_state(#[trigger] d@[i], psis[i]),
            forall|u: Ltl|
                occurs(final_states@, u) <==> u is Until && exists|j: int|
                    0 <= j < i && #[trigger] psis[j] == u,
        decreases d@.len() - i,
    {
        let ghost before = final_states@;
        proof {
            assert(holds_state(d@[i as int], psis[i as int]));
        }
        match d[i].state.first() {
            None => {
                proof {
                    assert(d@[i as int].state@.contains(psis[i as int]));
                    let w = choose|w: int|
                        0 <= w < d@[i as int].state.0@.len() && (#[trigger] d@[i as int].state.0@[w]).elem()
                            == psis[i as int];
                }
            },
            Some(m) => {
                assert(single(psis[i as int]).contains(m@));
                assert(m@ == psis[i as int]);
                if matches!(m, PhiOp::Until(_)) {
                    let copy = m.duplicate();
                    proof {
                        lemma_push_elems(before, copy);
                    }
                    put(&mut final_states, copy);
                }
            },
        }
        proof {
            assert forall|u: Ltl|
                occurs(final_states@, u) <==> u is Until && exists|j: int|
                    0 <= j < i + 1 && #[trigger] psis[j] == u by {
                assert(occurs(final_states@, u) <==> elems(final_states@).contains(u));
                assert(occurs(before, u) <==> elems(before).contains(u));
                if psis[i as int] is Until {
                    assert(occurs(final_states@, u) <==> occurs(before, u) || u == psis[i as int]);
                } else {
                    assert(occurs(final_states@, u) <==> occurs(before, u));
                }
            }
        }
        i = i + 1;
    }
    final_states
}

/// Visits the conjunctions of the list in turn: each member that is no
/// state yet is entered, and the targets of its transitions are appended to
/// the list.
fn explore(Ghost(f): Ghost<Ltl>, queue: Vec<Conjuction>) -> (res: (Vec<VwaaState>, Ghost<Seq<Ltl>>, Ghost<
    Seq<Conjuction>,
>))
    requires
        building(f, queue@, 0, Seq::<VwaaState>::empty(), Seq::<Ltl>::empty()),
    ensures
        building(f, res.2@, res.2@.len() as int, res.0@, res.1@),
        followed(res.2@, res.0@, res.1@, res.0@.len() as int),
{
    let mut queue = queue;
    let mut delta_list: Vec<VwaaState> = Vec::new();
    let ghost mut psis: Seq<Ltl> = Seq::empty();
    let mut head: usize = 0;
    while head < queue.len()
        invariant
            building(f, queue@, head as int, delta_list@, psis),
            followed(queue@, delta_list@, psis, delta_list@.len() as int),
        decreases usize::MAX - head,
    {
        let members = copy_all(&queue[head].0);
        let ghost state_set = queue@[head as int]@;
        let mut k: usize = 0;
        while k < members.len()
            invariant
                head < queue@.len(),
                k <= members@.len(),
                elems(members@) == state_set,
                queue@[head as int]@ == state_set,
                building(f, queue@, head as int, delta_list@, psis),
                followed(queue@, delta_list@, psis, delta_list@.len() as int),
                forall|j: int| 0 <= j < k ==> keyed(delta_list@, (#[trigger] members@[j])@),
            decreases members@.len() - k,
        {
            let member = &members[k];
            let ghost psi = member@;
            proof {
                assert(occurs(members@, members@[k as int].elem()));
                assert(queue@[head as int]@.contains(psi));
                assert(flat(psi) =~= single(psi));
            }
            let flat_state = Conjuction(And::flatten(member));
            match find_state(&delta_list, &flat_state) {
                Some(at) => {
                    assert(keyed(delta_list@, psi));
                },
                None => {
                    let transitions = big_delta(member);
                    let ghost old_d = delta_list@;
                    let ghost old_q = queue@;
                    let ghost old_psis = psis;
                    enqueue_targets(&mut queue, &transitions);
                    let entry = VwaaState { state: flat_state, transitions };
                    proof {
                        psis = old_psis.push(psi);
                        lemma_enter(
                            f,
                            old_q,
                            queue@,
                            head as int,
                            old_d,
                            old_d.push(entry),
                            old_psis,
                            psis,
                            psi,
                            entry,
                            entry.transitions@,
                        );
                    }
                    delta_list.push(entry);
                },
            }
            k = k + 1;
        }
        proof {
            assert forall|x: int, m: Ltl|
                0 <= x < head + 1 && #[trigger] queue@[x]@.contains(m) implies keyed(
                    delta_list@,
                    m,
                ) by {
                if x == head {
                    assert(elems(members@).contains(m));
                    let y = choose|y: int| 0 <= y < members@.len() && (#[trigger] members@[y]).elem() == m;
                    assert(keyed(delta_list@, members@[y]@));
                }
            }
        }
        head = head + 1;
    }
    (delta_list, Ghost(psis), Ghost(queue@))
}

/// What was built is the automaton of `f`.
proof fn lemma_built(f: Ltl, a: VWAA, q: Seq<Conjuction>, psis: Seq<Ltl>)
    requires
        elems(a.initial@) == Set::new(
            |s: Set<Ltl>| exists|c: Ltl| #[trigger] bar(f).contains(c) && s == flat(c),
        ),
        building(f, q, q.len() as int, a.delta@, psis),
        followed(q, a.delta@, psis, a.delta@.len() as int),
        forall|u: Ltl|
            elems(a.final_states@).contains(u) <==> u is Until && exists|j: int|
                0 <= j < psis.len() && #[trigger] psis[j] == u,
    ensures
        a.is_automaton_of(f),
{
    let d = a.delta@;
    assert forall|psi: Ltl| reached(f, psi) implies #[trigger] keyed(d, psi) by {
        reveal(reached);
        let path = choose|path: Seq<Ltl>| #[trigger] is_run(f, path) && path[path.len() - 1] == psi;
        lemma_all_entered(f, q, d, psis, path);
    }
    assert forall|x: int| 0 <= x < d.len() implies entered(f, #[trigger] d[x]) by {
        assert(holds_state(d[x], psis[x]));
        assert(reached(f, psis[x]));
    }
    assert forall|x: int, y: int| 0 <= x < y < d.len() implies (#[trigger] d[x]).state@ != (
    #[trigger] d[y]).state@ by {
        assert(holds_state(d[x], psis[x]));
        assert(holds_state(d[y], psis[y]));
        assert(psis[x] != psis[y]);
        assert(single(psis[x]).contains(psis[x]));
    }
    assert forall|u: Ltl| elems(a.final_states@).contains(u) <==> (u is Until && reached(f, u)) by {
        if u is Until && reached(f, u) {
            assert(keyed(d, u));
            let x = choose|x: int| 0 <= x < d.len() && (#[trigger] d[x]).state@ == single(u);
            assert(holds_state(d[x], psis[x]));
            assert(single(psis[x]).contains(u));
            assert(psis[x] == u);
        }
        if elems(a.final_states@).contains(u) {
            let x = choose|x: int| 0 <= x < psis.len() && #[trigger] psis[x] == u;
            assert(holds_state(d[x], psis[x]));
        }
    }
    assert(elems(a.final_states@) =~= Set::new(|u: Ltl| u is Until && reached(f, u)));
}

/// The very weak alternating automaton of a formula.
pub fn to_vwaa(phi: &PhiOp) -> (res: VWAA)
    ensures
        res.is_automaton_of(phi@),
{
    let (initial, queue) = seed(phi);
    let (delta_list, Ghost(psis), Ghost(visited)) = explore(Ghost(phi@), queue);
    let final_states = untils_of(&delta_list, Ghost(psis));
    let res = VWAA { initial, delta: delta_list, final_states };
    proof {
        lemma_built(phi@, res, visited, psis);
    }
    res
}

} // verus!
