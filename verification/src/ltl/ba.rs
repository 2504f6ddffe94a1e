//! Büchi automata: the third automaton of a formula. A state is a state of
//! the generalised automaton together with the number of acceptance
//! families that the run has fulfilled in turn.

use crate::listset::{
    copy_all, distinct, elems, find, included, lemma_push_elems, member, occurs, put, Element,
};
use crate::ltl::common::{
    all_below, closed_below, led, lemma_numbers_insert, merge_states, numbers_of, renumber,
    renumber_list, targets_below, Alphabet, Merging, SimpleTransition,
};
use crate::ltl::formula::Ltl;
use crate::ltl::gba::{families_below, family_below, AccFamily, AccTransition, GBA};
use vstd::prelude::*;

verus! {

/// A Büchi automaton with numbered states.
#[derive(Debug)]
#[allow(clippy::upper_case_acronyms)]
pub struct BA {
    pub initials: Vec<usize>,
    /// The labels that occur on transitions.
    pub symbols: Vec<Alphabet>,
    /// The transitions that leave each state.
    pub transitions: Vec<Vec<SimpleTransition>>,
    pub finals: Vec<usize>,
}

impl BA {
    /// The number of states.
    pub open spec fn size(&self) -> int {
        self.transitions@.len() as int
    }

    /// Every label of a transition is among the symbols.
    pub open spec fn labelled(&self) -> bool {
        forall|s: int, i: int|
            0 <= s < self.transitions@.len() && 0 <= i < self.transitions@[s]@.len() ==> occurs(
                self.symbols@,
                (#[trigger] self.transitions@[s]@[i]).props@,
            )
    }

    /// Initial states, final states and transitions name states of the
    /// automaton only.
    pub open spec fn wf(&self) -> bool {
        &&& all_below(self.initials@, self.size())
        &&& all_below(self.finals@, self.size())
        &&& closed_below(self.transitions@, self.size())
    }
}

/// A state of the automaton before its states are numbered: a state of the
/// generalised automaton and a level.
#[derive(Debug)]
pub struct Level {
    pub state: usize,
    pub level: usize,
}

impl Element for Level {
    type Model = (usize, usize);

    open spec fn elem(&self) -> (usize, usize) {
        (self.state, self.level)
    }

    fn eq_elem(&self, other: &Level) -> (res: bool) {
        self.state == other.state && self.level == other.level
    }

    fn copy_elem(&self) -> (res: Level) {
        Level { state: self.state, level: self.level }
    }
}

/// The family holds the transition.
pub open spec fn holds_in(family: AccFamily, t: (usize, (Set<Ltl>, usize))) -> bool {
    occurs(family.transitions@, t)
}

/// The families from number `from` up to, but without, number `to` all hold
/// transition `t`.
pub open spec fn in_turn(acc_t: Seq<AccFamily>, t: (usize, (Set<Ltl>, usize)), from: int, to: int) -> bool {
    forall|k: int| from <= k < to ==> holds_in(#[trigger] acc_t[k], t)
}

/// The level at which a run arrives by transition `t` from level `j`: from
/// level `j`, or from zero where `j` is the last level, it climbs one level
/// for each family in turn that holds `t`, and stops at the first that
/// does not.
pub open spec fn next_level(acc_t: Seq<AccFamily>, j: int, t: (usize, (Set<Ltl>, usize)), i: int) -> bool {
    &&& start_level(acc_t, j) <= i <= acc_t.len()
    &&& in_turn(acc_t, t, start_level(acc_t, j), i)
    &&& (i < acc_t.len() ==> !holds_in(acc_t[i], t))
}

/// The level from which the climb starts: zero after the last level.
pub open spec fn start_level(acc_t: Seq<AccFamily>, j: int) -> int {
    if j == acc_t.len() {
        0
    } else {
        j
    }
}

/// A run arrives at one level only.
pub proof fn lemma_next_unique(acc_t: Seq<AccFamily>, j: int, t: (usize, (Set<Ltl>, usize)), a: int, b: int)
    requires
        0 <= j <= acc_t.len(),
        next_level(acc_t, j, t, a),
        next_level(acc_t, j, t, b),
    ensures
        a == b,
{
    if a < b {
        assert(holds_in(acc_t[a], t));
    }
    if b < a {
        assert(holds_in(acc_t[b], t));
    }
}

/// The level at which a run arrives by `transition` from level `j`.
pub fn next(acc_t: &Vec<AccFamily>, j: usize, transition: &AccTransition) -> (res: usize)
    requires
        j <= acc_t@.len(),
    ensures
        next_level(acc_t@, j as int, transition.elem(), res as int),
        res <= acc_t@.len(),
{
    let r = acc_t.len();
    let start = if j == r {
        0
    } else {
        j
    };
    let mut i = start;
    while i < r
        invariant
            start <= i <= r,
            r == acc_t@.len(),
            start == start_level(acc_t@, j as int),
            in_turn(acc_t@, transition.elem(), start as int, i as int),
        decreases r - i,
    {
        let held = member(&acc_t[i].transitions, transition);
        assert(held == holds_in(acc_t@[i as int], transition.elem()));
        if !held {
            assert(in_turn(acc_t@, transition.elem(), start as int, i as int));
            assert(!holds_in(acc_t@[i as int], transition.elem()));
            assert(next_level(acc_t@, j as int, transition.elem(), i as int));
            return i;
        }
        i = i + 1;
    }
    i
}

/// Transition `t` asks for less than `other` and leads to the same state.
pub open spec fn weaker(t: (Set<Ltl>, usize), other: (Set<Ltl>, usize)) -> bool {
    t.0 != other.0 && t.0.subset_of(other.0) && t.1 == other.1
}

/// A transition of the list asks for more than `m` and leads to the same
/// state.
pub open spec fn outdone(transitions: Seq<SimpleTransition>, m: (Set<Ltl>, usize)) -> bool {
    exists|y: int| 0 <= y < transitions.len() && weaker(m, (#[trigger] transitions[y]).elem())
}

/// Removes each transition that asks for less than another one to the same
/// state.
pub fn prune_transitions(transitions: &Vec<SimpleTransition>) -> (res: Vec<SimpleTransition>)
    ensures
        forall|m: (Set<Ltl>, usize)| #[trigger]
            occurs(res@, m) <==> occurs(transitions@, m) && !outdone(transitions@, m),
{
    let mut res: Vec<SimpleTransition> = Vec::new();
    let mut i: usize = 0;
    proof {
        assert(transitions@.take(0) =~= Seq::<SimpleTransition>::empty());
    }
    while i < transitions.len()
        invariant
            i <= transitions@.len(),
            forall|m: (Set<Ltl>, usize)| #[trigger]
                occurs(res@, m) <==> occurs(transitions@.take(i as int), m) && !outdone(transitions@, m),
        decreases transitions@.len() - i,
    {
        let t = &transitions[i];
        let mut beaten = false;
        let mut y: usize = 0;
        while y < transitions.len()
            invariant
                y <= transitions@.len(),
                i < transitions@.len(),
                beaten <==> exists|z: int| 0 <= z < y && weaker(t.elem(), (#[trigger] transitions@[z]).elem()),
            decreases transitions@.len() - y,
        {
            let other = &transitions[y];
            if !t.props.eq_elem(&other.props) && included(&t.props.0, &other.props.0) && t.target
                == other.target {
                beaten = true;
            }
            y = y + 1;
        }
        let ghost before = res@;
        if !beaten {
            let c = t.copy_elem();
            proof {
                lemma_push_elems(before, c);
            }
            res.push(c);
        }
        proof {
            let all = transitions@;
            assert(all.take(i as int + 1) =~= all.take(i as int).push(all[i as int]));
            lemma_push_elems(all.take(i as int), all[i as int]);
            assert forall|m: (Set<Ltl>, usize)| #[trigger]
                occurs(res@, m) <==> occurs(all.take(i as int + 1), m) && !outdone(all, m) by {
                assert(occurs(before, m) <==> elems(before).contains(m));
                assert(occurs(res@, m) <==> elems(res@).contains(m));
                assert(occurs(all.take(i as int + 1), m) <==> elems(all.take(i as int + 1)).contains(m));
                assert(occurs(all.take(i as int), m) <==> elems(all.take(i as int)).contains(m));
            }
        }
        i = i + 1;
    }
    proof {
        assert(transitions@.take(i as int) =~= transitions@);
    }
    res
}

/// The list `b` is the list `a` with more members.
pub open spec fn grown(a: Seq<Level>, b: Seq<Level>) -> bool {
    a.len() <= b.len() && forall|i: int| 0 <= i < a.len() ==> #[trigger] b[i] == a[i]
}

/// The place of the state in the list; it is appended where it is new.
fn find_or_add(states: &mut Vec<Level>, c: Level) -> (at: usize)
    requires
        distinct(old(states)@),
    ensures
        at < final(states)@.len(),
        final(states)@[at as int].elem() == c.elem(),
        grown(old(states)@, final(states)@),
        final(states)@.len() <= old(states)@.len() + 1,
        final(states)@.len() > old(states)@.len() ==> at == old(states)@.len(),
        distinct(final(states)@),
{
    match find(states, &c) {
        Some(at) => at,
        None => {
            proof {
                lemma_push_elems(states@, c);
            }
            states.push(c);
            states.len() - 1
        },
    }
}

/// Every state is a state of the generalised automaton at a level that
/// there is.
pub open spec fn levels_below(states: Seq<Level>, n: int, r: int) -> bool {
    forall|i: int| 0 <= i < states.len() ==> (#[trigger] states[i]).state < n && states[i].level <= r
}

/// Transition `t` between numbered states is transition `t0` of the
/// generalised automaton, taken from state `x`: it has its label, and it
/// leads to the place of the target of `t0` at the level at which the run
/// arrives.
pub open spec fn arrives(
    acc_t: Seq<AccFamily>,
    states: Seq<Level>,
    x: int,
    t0: (Set<Ltl>, usize),
    t: (Set<Ltl>, usize),
) -> bool {
    &&& t.0 == t0.0
    &&& t.1 < states.len()
    &&& states[t.1 as int].state == t0.1
    &&& next_level(
        acc_t,
        states[x].level as int,
        (states[x].state, t0),
        states[t.1 as int].level as int,
    )
}

/// Transition `t` is one of the first `i` transitions of the generalised
/// automaton from the state of `x`, taken from state `x`.
pub open spec fn stepped_upto(
    gba_trans: Seq<Vec<SimpleTransition>>,
    acc_t: Seq<AccFamily>,
    states: Seq<Level>,
    x: int,
    i: int,
    t: (Set<Ltl>, usize),
) -> bool {
    exists|k: int|
        0 <= k < i && arrives(acc_t, states, x, (#[trigger] gba_trans[states[x].state as int]@[k]).elem(), t)
}

/// Transition `t` is a transition of the generalised automaton, taken from
/// state `x`.
pub open spec fn steps(
    gba_trans: Seq<Vec<SimpleTransition>>,
    acc_t: Seq<AccFamily>,
    states: Seq<Level>,
    x: int,
    t: (Set<Ltl>, usize),
) -> bool {
    stepped_upto(gba_trans, acc_t, states, x, gba_trans[states[x].state as int]@.len() as int, t)
}

/// Another transition from state `x` asks for more than `m` and leads to
/// the same state.
pub open spec fn overtaken(
    gba_trans: Seq<Vec<SimpleTransition>>,
    acc_t: Seq<AccFamily>,
    states: Seq<Level>,
    x: int,
    m: (Set<Ltl>, usize),
) -> bool {
    exists|o: (Set<Ltl>, usize)| #[trigger] steps(gba_trans, acc_t, states, x, o) && weaker(m, o)
}

/// The list holds the transitions that leave state `x`: those taken from
/// it but for those that ask for less than another one to the same state.
pub open spec fn row_at(
    gba_trans: Seq<Vec<SimpleTransition>>,
    acc_t: Seq<AccFamily>,
    states: Seq<Level>,
    x: int,
    row: Seq<SimpleTransition>,
) -> bool {
    forall|m: (Set<Ltl>, usize)| #[trigger]
        occurs(row, m) <==> steps(gba_trans, acc_t, states, x, m) && !overtaken(
            gba_trans,
            acc_t,
            states,
            x,
            m,
        )
}

/// The state at which a run arrives by transition `t0` from state `x` is
/// among the states.
pub open spec fn reached_level(acc_t: Seq<AccFamily>, states: Seq<Level>, x: int, t0: (Set<Ltl>, usize)) -> bool {
    exists|y: int|
        0 <= y < states.len() && (#[trigger] states[y]).state == t0.1 && next_level(
            acc_t,
            states[x].level as int,
            (states[x].state, t0),
            states[y].level as int,
        )
}

/// Every state at which a run arrives from state `x` is among the states.
pub open spec fn served(
    gba_trans: Seq<Vec<SimpleTransition>>,
    acc_t: Seq<AccFamily>,
    states: Seq<Level>,
    x: int,
) -> bool {
    forall|k: int|
        0 <= k < gba_trans[states[x].state as int]@.len() ==> reached_level(
            acc_t,
            states,
            x,
            (#[trigger] gba_trans[states[x].state as int]@[k]).elem(),
        )
}

/// A run arrives at state `j` from state `x`.
pub open spec fn entered_from(
    gba_trans: Seq<Vec<SimpleTransition>>,
    acc_t: Seq<AccFamily>,
    states: Seq<Level>,
    x: int,
    j: int,
) -> bool {
    exists|k: int|
        0 <= k < gba_trans[states[x].state as int]@.len() && states[j].state == (
        #[trigger] gba_trans[states[x].state as int]@[k]).target && next_level(
            acc_t,
            states[x].level as int,
            (states[x].state, gba_trans[states[x].state as int]@[k].elem()),
            states[j].level as int,
        )
}

/// In a list without repetitions, a state has one place.
proof fn lemma_one_place(states: Seq<Level>, x: int, y: int)
    requires
        distinct(states),
        0 <= x < states.len(),
        0 <= y < states.len(),
        states[x].elem() == states[y].elem(),
    ensures
        x == y,
{
    if x < y {
        assert(states[x].elem() != states[y].elem());
    }
    if y < x {
        assert(states[y].elem() != states[x].elem());
    }
}

/// Entering one more transition keeps the list of transitions as it must
/// be.
proof fn lemma_delta_step(
    gba_trans: Seq<Vec<SimpleTransition>>,
    acc_t: Seq<AccFamily>,
    before: Seq<Level>,
    states: Seq<Level>,
    x: int,
    i: int,
    all_before: Seq<SimpleTransition>,
    all: Seq<SimpleTransition>,
    at: usize,
)
    requires
        0 <= x < before.len(),
        0 <= i < gba_trans[before[x].state as int]@.len(),
        before[x].level <= acc_t.len(),
        grown(before, states),
        distinct(states),
        at < states.len(),
        arrives(
            acc_t,
            states,
            x,
            gba_trans[before[x].state as int]@[i].elem(),
            (gba_trans[before[x].state as int]@[i].props@, at),
        ),
        forall|t: (Set<Ltl>, usize)| #[trigger]
            occurs(all_before, t) <==> stepped_upto(gba_trans, acc_t, before, x, i, t),
        forall|k: int|
            0 <= k < i ==> reached_level(
                acc_t,
                before,
                x,
                (#[trigger] gba_trans[before[x].state as int]@[k]).elem(),
            ),
        elems(all) == elems(all_before).insert((gba_trans[before[x].state as int]@[i].props@, at)),
    ensures
        forall|t: (Set<Ltl>, usize)| #[trigger]
            occurs(all, t) <==> stepped_upto(gba_trans, acc_t, states, x, i + 1, t),
        forall|k: int|
            0 <= k < i + 1 ==> reached_level(
                acc_t,
                states,
                x,
                (#[trigger] gba_trans[states[x].state as int]@[k]).elem(),
            ),
{
    let s = before[x].state as int;
    let list = gba_trans[s]@;
    let j = before[x].level as int;
    assert(states[x] == before[x]);
    assert forall|k: int| 0 <= k < i + 1 implies reached_level(
        acc_t,
        states,
        x,
        (#[trigger] gba_trans[states[x].state as int]@[k]).elem(),
    ) by {
        if k < i {
            assert(reached_level(acc_t, before, x, list[k].elem()));
            let y = choose|y: int|
                0 <= y < before.len() && (#[trigger] before[y]).state == list[k].elem().1 && next_level(
                    acc_t,
                    j,
                    (before[x].state, list[k].elem()),
                    before[y].level as int,
                );
            assert(states[y] == before[y]);
        } else {
            assert(states[at as int].state == list[i].elem().1);
        }
    }
    assert forall|t: (Set<Ltl>, usize)| #[trigger]
        occurs(all, t) <==> stepped_upto(gba_trans, acc_t, states, x, i + 1, t) by {
        assert(occurs(all, t) <==> elems(all).contains(t));
        assert(occurs(all_before, t) <==> elems(all_before).contains(t));
        if occurs(all, t) {
            if occurs(all_before, t) {
                let k = choose|k: int|
                    0 <= k < i && arrives(acc_t, before, x, (#[trigger] gba_trans[s]@[k]).elem(), t);
                assert(states[t.1 as int] == before[t.1 as int]);
                assert(arrives(acc_t, states, x, list[k].elem(), t));
            } else {
                assert(arrives(acc_t, states, x, list[i].elem(), t));
            }
        }
        if stepped_upto(gba_trans, acc_t, states, x, i + 1, t) {
            let k = choose|k: int|
                0 <= k < i + 1 && arrives(acc_t, states, x, (#[trigger] gba_trans[s]@[k]).elem(), t);
            if k == i {
                lemma_next_unique(
                    acc_t,
                    j,
                    (before[x].state, list[i].elem()),
                    states[t.1 as int].level as int,
                    states[at as int].level as int,
                );
                lemma_one_place(states, t.1 as int, at as int);
                assert(t == (list[i].props@, at));
            } else {
                assert(reached_level(acc_t, before, x, list[k].elem()));
                let y = choose|y: int|
                    0 <= y < before.len() && (#[trigger] before[y]).state == list[k].elem().1
                        && next_level(
                        acc_t,
                        j,
                        (before[x].state, list[k].elem()),
                        before[y].level as int,
                    );
                assert(states[y] == before[y]);
                lemma_next_unique(
                    acc_t,
                    j,
                    (before[x].state, list[k].elem()),
                    states[t.1 as int].level as int,
                    states[y].level as int,
                );
                lemma_one_place(states, t.1 as int, y);
                assert(arrives(acc_t, before, x, list[k].elem(), t));
            }
        }
    }
}

/// The transitions that leave state `head`, with each target entered in
/// the list of states.
fn delta(gba: &GBA, acc_t: &Vec<AccFamily>, states: &mut Vec<Level>, head: usize) -> (out: Vec<
    SimpleTransition,
>)
    requires
        gba.wf(),
        head < old(states)@.len(),
        distinct(old(states)@),
        levels_below(old(states)@, gba.size(), acc_t@.len() as int),
    ensures
        grown(old(states)@, final(states)@),
        distinct(final(states)@),
        levels_below(final(states)@, gba.size(), acc_t@.len() as int),
        targets_below(out@, final(states)@.len() as int),
        row_at(gba.trans_f@, acc_t@, final(states)@, head as int, out@),
        served(gba.trans_f@, acc_t@, final(states)@, head as int),
        forall|j: int|
            old(states)@.len() <= j < final(states)@.len() ==> #[trigger] entered_from(
                gba.trans_f@,
                acc_t@,
                final(states)@,
                head as int,
                j,
            ),
{
    let s = states[head].state;
    let j = states[head].level;
    let list = &gba.trans_f[s];
    let ghost gt = gba.trans_f@;
    assert(targets_below(gba.trans_f@[s as int]@, gba.size()));
    let mut all: Vec<SimpleTransition> = Vec::new();
    let mut i: usize = 0;
    while i < list.len()
        invariant
            i <= list@.len(),
            gt == gba.trans_f@,
            list@ == gt[s as int]@,
            targets_below(list@, gba.size()),
            j <= acc_t@.len(),
            head < old(states)@.len(),
            s == old(states)@[head as int].state,
            j == old(states)@[head as int].level,
            grown(old(states)@, states@),
            distinct(states@),
            levels_below(states@, gba.size(), acc_t@.len() as int),
            targets_below(all@, states@.len() as int),
            forall|t: (Set<Ltl>, usize)| #[trigger]
                occurs(all@, t) <==> stepped_upto(gt, acc_t@, states@, head as int, i as int, t),
            forall|k: int|
                0 <= k < i ==> reached_level(
                    acc_t@,
                    states@,
                    head as int,
                    (#[trigger] gt[states@[head as int].state as int]@[k]).elem(),
                ),
            forall|y: int|
                old(states)@.len() <= y < states@.len() ==> #[trigger] entered_from(
                    gt,
                    acc_t@,
                    states@,
                    head as int,
                    y,
                ),
        decreases list@.len() - i,
    {
        let t = &list[i];
        let taken = AccTransition { source: s, transition: t.copy_elem() };
        let next_j = next(acc_t, j, &taken);
        let ghost old_states = states@;
        let at = find_or_add(states, Level { state: t.target, level: next_j });
        let ghost before = all@;
        put(&mut all, SimpleTransition { props: t.props.copy_elem(), target: at });
        proof {
            assert(states@[head as int] == old_states[head as int]);
            assert(old_states[head as int] == old(states)@[head as int]);
            assert(levels_below(states@, gba.size(), acc_t@.len() as int)) by {
                assert forall|x: int| 0 <= x < states@.len() implies (#[trigger] states@[x]).state
                    < gba.size() && states@[x].level <= acc_t@.len() by {
                    if x < old_states.len() {
                        assert(states@[x] == old_states[x]);
                    } else {
                        assert(states@[at as int].elem() == (t.target, next_j));
                    }
                }
            }
            assert(targets_below(all@, states@.len() as int)) by {
                assert forall|x: int| 0 <= x < all@.len() implies (#[trigger] all@[x]).target
                    < states@.len() by {
                    if x < before.len() {
                        assert(before[x].target < old_states.len());
                    }
                }
            }
            assert(taken.elem() == (s, list@[i as int].elem()));
            assert(arrives(
                acc_t@,
                states@,
                head as int,
                gt[s as int]@[i as int].elem(),
                (gt[s as int]@[i as int].props@, at),
            ));
            lemma_delta_step(gt, acc_t@, old_states, states@, head as int, i as int, before, all@, at);
            assert forall|y: int| old(states)@.len() <= y < states@.len() implies #[trigger] entered_from(
                gt,
                acc_t@,
                states@,
                head as int,
                y,
            ) by {
                if y < old_states.len() {
                    assert(entered_from(gt, acc_t@, old_states, head as int, y));
                    let k = choose|k: int|
                        0 <= k < gt[s as int]@.len() && old_states[y].state == (
                        #[trigger] gt[s as int]@[k]).target && next_level(
                            acc_t@,
                            j as int,
                            (s, gt[s as int]@[k].elem()),
                            old_states[y].level as int,
                        );
                    assert(states@[y] == old_states[y]);
                } else {
                    assert(y == at);
                    assert(states@[y].state == gt[s as int]@[i as int].target);
                }
            }
            assert(grown(old(states)@, states@)) by {
                assert forall|x: int| 0 <= x < old(states)@.len() implies #[trigger] states@[x] == old(
                    states,
                )@[x] by {
                    assert(old_states[x] == old(states)@[x]);
                }
            }
        }
        i = i + 1;
    }
    let out = prune_transitions(&all);
    proof {
        let now = states@;
        assert(now[head as int] == old(states)@[head as int]);
        assert(targets_below(out@, now.len() as int)) by {
            assert forall|x: int| 0 <= x < out@.len() implies (#[trigger] out@[x]).target < now.len() by {
                assert(occurs(out@, out@[x].elem()));
                assert(occurs(all@, out@[x].elem()));
                let y = choose|y: int| 0 <= y < all@.len() && (#[trigger] all@[y]).elem() == out@[x].elem();
                assert(all@[y].target < now.len());
            }
        }
        assert forall|m: (Set<Ltl>, usize)| #[trigger]
            occurs(out@, m) <==> steps(gt, acc_t@, now, head as int, m) && !overtaken(
                gt,
                acc_t@,
                now,
                head as int,
                m,
            ) by {
            assert(occurs(all@, m) <==> steps(gt, acc_t@, now, head as int, m));
            if outdone(all@, m) {
                let y = choose|y: int| 0 <= y < all@.len() && weaker(m, (#[trigger] all@[y]).elem());
                assert(occurs(all@, all@[y].elem()));
                assert(steps(gt, acc_t@, now, head as int, all@[y].elem()));
            }
            if overtaken(gt, acc_t@, now, head as int, m) {
                let o = choose|o: (Set<Ltl>, usize)| #[trigger]
                    steps(gt, acc_t@, now, head as int, o) && weaker(m, o);
                assert(occurs(all@, o));
                let y = choose|y: int| 0 <= y < all@.len() && (#[trigger] all@[y]).elem() == o;
                assert(weaker(m, all@[y].elem()));
            }
        }
    }
    out
}

/// What a state has stays what it must be where the list of states
/// grows.
proof fn lemma_row_stable(
    gba_trans: Seq<Vec<SimpleTransition>>,
    acc_t: Seq<AccFamily>,
    before: Seq<Level>,
    states: Seq<Level>,
    x: int,
    row: Seq<SimpleTransition>,
)
    requires
        grown(before, states),
        distinct(states),
        0 <= x < before.len(),
        before[x].level <= acc_t.len(),
        served(gba_trans, acc_t, before, x),
        row_at(gba_trans, acc_t, before, x, row),
    ensures
        served(gba_trans, acc_t, states, x),
        row_at(gba_trans, acc_t, states, x, row),
{
    let s = before[x].state as int;
    let j = before[x].level as int;
    let list = gba_trans[s]@;
    assert(states[x] == before[x]);
    assert forall|k: int| 0 <= k < list.len() implies reached_level(
        acc_t,
        states,
        x,
        (#[trigger] gba_trans[states[x].state as int]@[k]).elem(),
    ) by {
        assert(reached_level(acc_t, before, x, list[k].elem()));
        let y = choose|y: int|
            0 <= y < before.len() && (#[trigger] before[y]).state == list[k].elem().1 && next_level(
                acc_t,
                j,
                (before[x].state, list[k].elem()),
                before[y].level as int,
            );
        assert(states[y] == before[y]);
    }
    assert forall|t: (Set<Ltl>, usize)|
        steps(gba_trans, acc_t, before, x, t) <==> #[trigger] steps(gba_trans, acc_t, states, x, t) by {
        if steps(gba_trans, acc_t, before, x, t) {
            let k = choose|k: int|
                0 <= k < list.len() && arrives(acc_t, before, x, (#[trigger] gba_trans[s]@[k]).elem(), t);
            assert(states[t.1 as int] == before[t.1 as int]);
            assert(arrives(acc_t, states, x, list[k].elem(), t));
        }
        if steps(gba_trans, acc_t, states, x, t) {
            let k = choose|k: int|
                0 <= k < list.len() && arrives(acc_t, states, x, (#[trigger] gba_trans[s]@[k]).elem(), t);
            assert(reached_level(acc_t, before, x, list[k].elem()));
            let y = choose|y: int|
                0 <= y < before.len() && (#[trigger] before[y]).state == list[k].elem().1 && next_level(
                    acc_t,
                    j,
                    (before[x].state, list[k].elem()),
                    before[y].level as int,
                );
            assert(states[y] == before[y]);
            lemma_next_unique(
                acc_t,
                j,
                (before[x].state, list[k].elem()),
                states[t.1 as int].level as int,
                states[y].level as int,
            );
            lemma_one_place(states, t.1 as int, y);
            assert(arrives(acc_t, before, x, list[k].elem(), t));
        }
    }
    assert forall|m: (Set<Ltl>, usize)| #[trigger]
        occurs(row, m) <==> steps(gba_trans, acc_t, states, x, m) && !overtaken(
            gba_trans,
            acc_t,
            states,
            x,
            m,
        ) by {
        assert(occurs(row, m) <==> steps(gba_trans, acc_t, before, x, m) && !overtaken(
            gba_trans,
            acc_t,
            before,
            x,
            m,
        ));
        assert(steps(gba_trans, acc_t, before, x, m) <==> steps(gba_trans, acc_t, states, x, m));
        if overtaken(gba_trans, acc_t, before, x, m) {
            let o = choose|o: (Set<Ltl>, usize)| #[trigger]
                steps(gba_trans, acc_t, before, x, o) && weaker(m, o);
            assert(steps(gba_trans, acc_t, states, x, o));
        }
        if overtaken(gba_trans, acc_t, states, x, m) {
            let o = choose|o: (Set<Ltl>, usize)| #[trigger]
                steps(gba_trans, acc_t, states, x, o) && weaker(m, o);
            assert(steps(gba_trans, acc_t, before, x, o));
        }
    }
}

/// Family `a` comes before family `b`: it is larger, or as large and
/// earlier.
pub open spec fn comes_before(families: Seq<AccFamily>, a: int, b: int) -> bool {
    families[a].transitions@.len() > families[b].transitions@.len() || (families[a].transitions@.len()
        == families[b].transitions@.len() && a < b)
}

/// The list holds the places of the families in their order.
pub open spec fn in_order(families: Seq<AccFamily>, order: Seq<usize>) -> bool {
    &&& order.len() == families.len()
    &&& all_below(order, families.len() as int)
    &&& forall|i: int, j: int|
        0 <= i < j < order.len() ==> comes_before(families, (#[trigger] order[i]) as int, (#[trigger] order[j]) as int)
}

/// The places of the families in the order of their sizes, the largest
/// first; of families of one size, the earlier first.
pub fn by_size(families: &Vec<AccFamily>) -> (order: Vec<usize>)
    ensures
        in_order(families@, order@),
{
    let r = families.len();
    let mut order: Vec<usize> = Vec::new();
    let mut taken: Vec<bool> = Vec::new();
    let mut i: usize = 0;
    while i < r
        invariant
            i <= r,
            taken@.len() == i,
            forall|x: int| 0 <= x < i ==> !(#[trigger] taken@[x]),
        decreases r - i,
    {
        taken.push(false);
        i = i + 1;
    }
    while order.len() < r
        invariant
            r == families@.len(),
            taken@.len() == r,
            order@.len() <= r,
            all_below(order@, r as int),
            forall|x: int| 0 <= x < order@.len() ==> taken@[(#[trigger] order@[x]) as int],
            forall|x: int|
                0 <= x < r && (#[trigger] taken@[x]) ==> exists|y: int|
                    0 <= y < order@.len() && #[trigger] order@[y] == x,
            forall|x: int, y: int|
                0 <= x < y < order@.len() ==> comes_before(
                    families@,
                    (#[trigger] order@[x]) as int,
                    (#[trigger] order@[y]) as int,
                ),
            forall|x: int, z: int|
                0 <= x < order@.len() && 0 <= z < r && !(#[trigger] taken@[z]) ==> comes_before(
                    families@,
                    (#[trigger] order@[x]) as int,
                    z,
                ),
        decreases r - order@.len(),
    {
        let mut best: Option<usize> = None;
        let mut k: usize = 0;
        while k < r
            invariant
                k <= r,
                r == families@.len(),
                taken@.len() == r,
                best is None ==> forall|x: int| 0 <= x < k ==> #[trigger] taken@[x],
                best matches Some(b) ==> b < k && !taken@[b as int] && forall|x: int|
                    0 <= x < k && !(#[trigger] taken@[x]) && x != b ==> comes_before(
                        families@,
                        b as int,
                        x,
                    ),
            decreases r - k,
        {
            if !taken[k] {
                match best {
                    None => {
                        best = Some(k);
                    },
                    Some(b) => {
                        if families[k].transitions.len() > families[b].transitions.len() {
                            best = Some(k);
                        }
                    },
                }
            }
            k = k + 1;
        }
        match best {
            None => {
                proof {
                    lemma_all_taken(order@, taken@);
                }
                assert(false);
            },
            Some(b) => {
                let ghost old_order = order@;
                let ghost old_taken = taken@;
                order.push(b);
                taken.set(b, true);
                proof {
                    assert forall|x: int| 0 <= x < r && (#[trigger] taken@[x]) implies exists|y: int|
                        0 <= y < order@.len() && #[trigger] order@[y] == x by {
                        if x == b {
                            assert(order@[old_order.len() as int] == x);
                        } else {
                            let y = choose|y: int| 0 <= y < old_order.len() && #[trigger] old_order[y] == x;
                            assert(order@[y] == x);
                        }
                    }
                    assert forall|x: int, y: int| 0 <= x < y < order@.len() implies comes_before(
                        families@,
                        (#[trigger] order@[x]) as int,
                        (#[trigger] order@[y]) as int,
                    ) by {
                        if y == old_order.len() {
                            assert(order@[x] == old_order[x]);
                            assert(!old_taken[b as int]);
                        } else {
                            assert(order@[x] == old_order[x]);
                            assert(order@[y] == old_order[y]);
                        }
                    }
                    assert forall|x: int, z: int|
                        0 <= x < order@.len() && 0 <= z < r && !(#[trigger] taken@[z]) implies comes_before(
                        families@,
                        (#[trigger] order@[x]) as int,
                        z,
                    ) by {
                        assert(!old_taken[z]);
                        if x < old_order.len() {
                            assert(order@[x] == old_order[x]);
                        }
                    }
                }
            },
        }
    }
    order
}

/// A list of numbers below `r` that holds every number that is flagged
/// holds all of them once all are flagged: it has `r` members.
proof fn lemma_all_taken(order: Seq<usize>, taken: Seq<bool>)
    requires
        forall|x: int|
            0 <= x < taken.len() && (#[trigger] taken[x]) ==> exists|y: int|
                0 <= y < order.len() && #[trigger] order[y] == x,
        forall|x: int| 0 <= x < taken.len() ==> #[trigger] taken[x],
    ensures
        order.len() >= taken.len(),
    decreases taken.len(),
{
    if taken.len() > 0 {
        let last: int = taken.len() - 1;
        assert(taken[last]);
        let y = choose|y: int| 0 <= y < order.len() && #[trigger] order[y] == last;
        let rest = order.remove(y);
        let fewer = taken.drop_last();
        assert forall|x: int| 0 <= x < fewer.len() && (#[trigger] fewer[x]) implies exists|z: int|
            0 <= z < rest.len() && #[trigger] rest[z] == x by {
            assert(taken[x]);
            let z = choose|z: int| 0 <= z < order.len() && #[trigger] order[z] == x;
            assert(z != y);
            if z < y {
                assert(rest[z] == x);
            } else {
                assert(rest[z - 1] == order[z]);
            }
        }
        assert forall|x: int| 0 <= x < fewer.len() implies #[trigger] fewer[x] by {
            assert(taken[x]);
        }
        lemma_all_taken(rest, fewer);
    }
}

/// The list `res` holds the families in the order that `order` gives.
pub open spec fn arranged(families: Seq<AccFamily>, order: Seq<usize>, res: Seq<AccFamily>) -> bool {
    &&& res.len() == order.len()
    &&& forall|i: int|
        0 <= i < res.len() ==> (#[trigger] res[i]).phi@ == families[order[i] as int].phi@ && elems(
            res[i].transitions@,
        ) == elems(families[order[i] as int].transitions@)
}

/// The families in the order of their sizes, the largest first.
pub fn sorted_families(gba: &GBA) -> (res: (Vec<AccFamily>, Vec<usize>))
    requires
        gba.wf(),
    ensures
        in_order(gba.acc_transitions@, res.1@),
        arranged(gba.acc_transitions@, res.1@, res.0@),
        families_below(res.0@, gba.size()),
{
    let order = by_size(&gba.acc_transitions);
    let mut res: Vec<AccFamily> = Vec::new();
    let mut i: usize = 0;
    while i < order.len()
        invariant
            i <= order@.len(),
            order@.len() == gba.acc_transitions@.len(),
            all_below(order@, gba.acc_transitions@.len() as int),
            gba.wf(),
            res@.len() == i,
            families_below(res@, gba.size()),
            forall|x: int|
                0 <= x < i ==> (#[trigger] res@[x]).phi@ == gba.acc_transitions@[order@[x] as int].phi@
                    && elems(res@[x].transitions@) == elems(
                    gba.acc_transitions@[order@[x] as int].transitions@,
                ),
        decreases order@.len() - i,
    {
        let family = &gba.acc_transitions[order[i]];
        assert(family_below(gba.acc_transitions@[order@[i as int] as int].transitions@, gba.size()));
        let copy = copy_all(&family.transitions);
        assert(family_below(copy@, gba.size())) by {
            assert forall|x: int| 0 <= x < copy@.len() implies (#[trigger] copy@[x]).source
                < gba.size() && copy@[x].transition.target < gba.size() by {
                assert(copy@[x].elem() == family.transitions@[x].elem());
                assert(family.transitions@[x].source < gba.size());
            }
        }
        let ghost before = res@;
        res.push(AccFamily { phi: family.phi.duplicate(), transitions: copy });
        proof {
            assert(families_below(res@, gba.size())) by {
                assert forall|x: int| 0 <= x < res@.len() implies family_below(
                    (#[trigger] res@[x]).transitions@,
                    gba.size(),
                ) by {
                    if x < before.len() {
                        assert(family_below(before[x].transitions@, gba.size()));
                    }
                }
            }
            assert forall|x: int| 0 <= x < i + 1 implies (#[trigger] res@[x]).phi@
                == gba.acc_transitions@[order@[x] as int].phi@ && elems(res@[x].transitions@) == elems(
                gba.acc_transitions@[order@[x] as int].transitions@,
            ) by {
                if x < i {
                    assert(res@[x] == before[x]);
                }
            }
        }
        i = i + 1;
    }
    (res, order)
}

/// A transition of the automaton has the label.
pub open spec fn labels(trans: Seq<Vec<SimpleTransition>>, a: Set<Ltl>) -> bool {
    exists|s: int, i: int|
        0 <= s < trans.len() && 0 <= i < trans[s]@.len() && (#[trigger] trans[s]@[i]).props@ == a
}

/// A transition of the first `s` states, or one of the first `i` of state
/// `s`, has the label.
pub open spec fn labels_upto(trans: Seq<Vec<SimpleTransition>>, s: int, i: int, a: Set<Ltl>) -> bool {
    exists|x: int, y: int|
        0 <= x < trans.len() && 0 <= y < trans[x]@.len() && (x < s || x == s && y < i) && (
        #[trigger] trans[x]@[y]).props@ == a
}

/// The labels that occur on the transitions.
pub fn labels_of(trans: &Vec<Vec<SimpleTransition>>) -> (res: Vec<Alphabet>)
    ensures
        forall|a: Set<Ltl>| #[trigger] occurs(res@, a) <==> labels(trans@, a),
        distinct(res@),
{
    let mut res: Vec<Alphabet> = Vec::new();
    let mut s: usize = 0;
    while s < trans.len()
        invariant
            s <= trans@.len(),
            distinct(res@),
            forall|a: Set<Ltl>| #[trigger] occurs(res@, a) <==> labels_upto(trans@, s as int, 0, a),
        decreases trans@.len() - s,
    {
        let list = &trans[s];
        let mut i: usize = 0;
        while i < list.len()
            invariant
                s < trans@.len(),
                list@ == trans@[s as int]@,
                i <= list@.len(),
                distinct(res@),
                forall|a: Set<Ltl>| #[trigger]
                    occurs(res@, a) <==> labels_upto(trans@, s as int, i as int, a),
            decreases list@.len() - i,
        {
            let ghost before = res@;
            let label = list[i].props.copy_elem();
            put(&mut res, label);
            proof {
                assert forall|a: Set<Ltl>| #[trigger]
                    occurs(res@, a) <==> labels_upto(trans@, s as int, i as int + 1, a) by {
                    assert(occurs(before, a) <==> elems(before).contains(a));
                    assert(occurs(res@, a) <==> elems(res@).contains(a));
                    if labels_upto(trans@, s as int, i as int, a) {
                        let (x, y) = choose|x: int, y: int|
                            0 <= x < trans@.len() && 0 <= y < trans@[x]@.len() && (x < s || x == s && y < i)
                                && (#[trigger] trans@[x]@[y]).props@ == a;
                        assert(0 <= x < trans@.len() && 0 <= y < trans@[x]@.len() && (x < s || x == s && y
                            < i + 1) && trans@[x]@[y].props@ == a);
                    }
                    if a == list@[i as int].props@ {
                        assert(0 <= s < trans@.len() && 0 <= i < trans@[s as int]@.len() && (s < s || s == s
                            && i < i + 1) && trans@[s as int]@[i as int].props@ == a);
                    }
                    if labels_upto(trans@, s as int, i as int + 1, a) {
                        let (x, y) = choose|x: int, y: int|
                            0 <= x < trans@.len() && 0 <= y < trans@[x]@.len() && (x < s || x == s && y < i
                                + 1) && (#[trigger] trans@[x]@[y]).props@ == a;
                        if x == s && y == i {
                        } else {
                            assert(0 <= x < trans@.len() && 0 <= y < trans@[x]@.len() && (x < s || x == s
                                && y < i) && trans@[x]@[y].props@ == a);
                        }
                    }
                }
            }
            i = i + 1;
        }
        proof {
            assert forall|a: Set<Ltl>| #[trigger]
                occurs(res@, a) <==> labels_upto(trans@, s as int + 1, 0, a) by {
                if labels_upto(trans@, s as int, i as int, a) {
                    let (x, y) = choose|x: int, y: int|
                        0 <= x < trans@.len() && 0 <= y < trans@[x]@.len() && (x < s || x == s && y < i)
                            && (#[trigger] trans@[x]@[y]).props@ == a;
                    assert(0 <= x < trans@.len() && 0 <= y < trans@[x]@.len() && (x < s + 1 || x == s + 1
                        && y < 0) && trans@[x]@[y].props@ == a);
                }
                if labels_upto(trans@, s as int + 1, 0, a) {
                    let (x, y) = choose|x: int, y: int|
                        0 <= x < trans@.len() && 0 <= y < trans@[x]@.len() && (x < s + 1 || x == s + 1 && y
                            < 0) && (#[trigger] trans@[x]@[y]).props@ == a;
                    assert(0 <= x < trans@.len() && 0 <= y < trans@[x]@.len() && (x < s || x == s && y < i)
                        && trans@[x]@[y].props@ == a);
                }
            }
        }
        s = s + 1;
    }
    proof {
        assert forall|a: Set<Ltl>| #[trigger] occurs(res@, a) <==> labels(trans@, a) by {
            if labels_upto(trans@, s as int, 0, a) {
                let (x, y) = choose|x: int, y: int|
                    0 <= x < trans@.len() && 0 <= y < trans@[x]@.len() && (x < s || x == s && y < 0) && (
                    #[trigger] trans@[x]@[y]).props@ == a;
                assert(0 <= x < trans@.len() && 0 <= y < trans@[x]@.len() && trans@[x]@[y].props@ == a);
            }
            if labels(trans@, a) {
                let (x, y) = choose|x: int, y: int|
                    0 <= x < trans@.len() && 0 <= y < trans@[x]@.len() && (#[trigger] trans@[x]@[y]).props@
                        == a;
                assert(0 <= x < trans@.len() && 0 <= y < trans@[x]@.len() && (x < s || x == s && y < 0)
                    && trans@[x]@[y].props@ == a);
            }
        }
    }
    res
}

/// State `j` is an initial state at level zero, or a run arrives at it from
/// a state before it.
pub open spec fn came(
    gba_initial: Seq<usize>,
    gba_trans: Seq<Vec<SimpleTransition>>,
    acc_t: Seq<AccFamily>,
    states: Seq<Level>,
    j: int,
) -> bool {
    (states[j].level == 0 && occurs(gba_initial, states[j].state)) || exists|x: int|
        0 <= x < j && #[trigger] entered_from(gba_trans, acc_t, states, x, j)
}

/// The states are the states of the generalised automaton at the levels at
/// which runs arrive from its initial states at level zero, each once;
/// `trans` holds the transitions that leave each; and `initial` holds the
/// places of the initial states at level zero.
pub open spec fn expansion(
    gba_initial: Seq<usize>,
    gba_trans: Seq<Vec<SimpleTransition>>,
    acc_t: Seq<AccFamily>,
    states: Seq<Level>,
    trans: Seq<Vec<SimpleTransition>>,
    initial: Seq<usize>,
) -> bool {
    &&& trans.len() == states.len()
    &&& distinct(states)
    &&& levels_below(states, gba_trans.len() as int, acc_t.len() as int)
    &&& closed_below(trans, states.len() as int)
    &&& forall|x: int| 0 <= x < states.len() ==> row_at(gba_trans, acc_t, states, x, (#[trigger] trans[x])@)
    &&& forall|x: int| 0 <= x < states.len() ==> #[trigger] served(gba_trans, acc_t, states, x)
    &&& forall|j: int| 0 <= j < states.len() ==> #[trigger] came(gba_initial, gba_trans, acc_t, states, j)
    &&& forall|k: int| 0 <= k < gba_initial.len() ==> occurs(states, ((#[trigger] gba_initial[k]), 0usize))
    &&& forall|x: usize| #[trigger]
        occurs(initial, x) <==> x < states.len() && states[x as int].level == 0 && occurs(
            gba_initial,
            states[x as int].state,
        )
}

/// The initial states at level zero, and their places.
fn initial_levels(gba: &GBA, r: usize) -> (res: (Vec<Level>, Vec<usize>))
    requires
        gba.wf(),
    ensures
        distinct(res.0@),
        levels_below(res.0@, gba.size(), r as int),
        forall|j: int|
            0 <= j < res.0@.len() ==> (#[trigger] res.0@[j]).level == 0 && occurs(
                gba.initial@,
                res.0@[j].state,
            ),
        forall|k: int| 0 <= k < gba.initial@.len() ==> occurs(res.0@, ((#[trigger] gba.initial@[k]), 0usize)),
        forall|x: usize| #[trigger] occurs(res.1@, x) <==> x < res.0@.len(),
{
    let mut states: Vec<Level> = Vec::new();
    let mut first: Vec<usize> = Vec::new();
    let mut i: usize = 0;
    while i < gba.initial.len()
        invariant
            i <= gba.initial@.len(),
            gba.wf(),
            distinct(states@),
            levels_below(states@, gba.size(), r as int),
            forall|j: int|
                0 <= j < states@.len() ==> (#[trigger] states@[j]).level == 0 && occurs(
                    gba.initial@,
                    states@[j].state,
                ),
            forall|k: int| 0 <= k < i ==> occurs(states@, ((#[trigger] gba.initial@[k]), 0usize)),
            forall|x: usize| #[trigger] occurs(first@, x) <==> x < states@.len(),
        decreases gba.initial@.len() - i,
    {
        let ghost old_states = states@;
        let ghost before = first@;
        let s = gba.initial[i];
        assert(s < gba.size());
        let at = find_or_add(&mut states, Level { state: s, level: 0 });
        put(&mut first, at);
        proof {
            assert(states@[at as int].elem() == (s, 0usize));
            assert forall|x: int| 0 <= x < states@.len() implies (#[trigger] states@[x]).state < gba.size()
                && states@[x].level <= r && states@[x].level == 0 && occurs(
                gba.initial@,
                states@[x].state,
            ) by {
                if x < old_states.len() {
                    assert(states@[x] == old_states[x]);
                } else {
                    assert(gba.initial@[i as int].elem() == states@[x].state);
                }
            }
            assert forall|k: int| 0 <= k < i + 1 implies occurs(
                states@,
                ((#[trigger] gba.initial@[k]), 0usize),
            ) by {
                if k < i {
                    let x = choose|x: int|
                        0 <= x < old_states.len() && (#[trigger] old_states[x]).elem() == (
                            gba.initial@[k],
                            0usize,
                        );
                    assert(states@[x] == old_states[x]);
                }
            }
            assert forall|x: usize| #[trigger] occurs(first@, x) <==> x < states@.len() by {
                assert(occurs(first@, x) <==> elems(first@).contains(x));
                assert(occurs(before, x) <==> elems(before).contains(x));
            }
        }
        i = i + 1;
    }
    (states, first)
}

/// What holds while the states are visited: the states that were visited
/// have their transitions, and each state after the first `n0` is arrived
/// at.
pub open spec fn expanding(
    gba_initial: Seq<usize>,
    gba_trans: Seq<Vec<SimpleTransition>>,
    acc_t: Seq<AccFamily>,
    states: Seq<Level>,
    trans: Seq<Vec<SimpleTransition>>,
    n0: int,
) -> bool {
    &&& trans.len() <= states.len()
    &&& 0 <= n0 <= states.len()
    &&& distinct(states)
    &&& levels_below(states, gba_trans.len() as int, acc_t.len() as int)
    &&& closed_below(trans, states.len() as int)
    &&& forall|x: int| 0 <= x < trans.len() ==> row_at(gba_trans, acc_t, states, x, (#[trigger] trans[x])@)
    &&& forall|x: int| 0 <= x < trans.len() ==> #[trigger] served(gba_trans, acc_t, states, x)
    &&& forall|j: int|
        0 <= j < n0 ==> (#[trigger] states[j]).level == 0 && occurs(gba_initial, states[j].state)
    &&& forall|j: int| n0 <= j < states.len() ==> #[trigger] came(gba_initial, gba_trans, acc_t, states, j)
}

/// Visiting one more state keeps what holds while the states are visited.
proof fn lemma_expand_step(
    gba_initial: Seq<usize>,
    gba_trans: Seq<Vec<SimpleTransition>>,
    acc_t: Seq<AccFamily>,
    before: Seq<Level>,
    states: Seq<Level>,
    old_trans: Seq<Vec<SimpleTransition>>,
    trans: Seq<Vec<SimpleTransition>>,
    out: Vec<SimpleTransition>,
    n0: int,
)
    requires
        expanding(gba_initial, gba_trans, acc_t, before, old_trans, n0),
        old_trans.len() < before.len(),
        trans == old_trans.push(out),
        grown(before, states),
        distinct(states),
        levels_below(states, gba_trans.len() as int, acc_t.len() as int),
        targets_below(out@, states.len() as int),
        row_at(gba_trans, acc_t, states, old_trans.len() as int, out@),
        served(gba_trans, acc_t, states, old_trans.len() as int),
        forall|j: int|
            before.len() <= j < states.len() ==> #[trigger] entered_from(
                gba_trans,
                acc_t,
                states,
                old_trans.len() as int,
                j,
            ),
    ensures
        expanding(gba_initial, gba_trans, acc_t, states, trans, n0),
{
    let head = old_trans.len() as int;
    assert forall|s: int| 0 <= s < trans.len() implies targets_below(
        (#[trigger] trans[s])@,
        states.len() as int,
    ) by {
        if s < head {
            assert(targets_below(old_trans[s]@, before.len() as int));
        }
    }
    assert forall|x: int| 0 <= x < trans.len() implies row_at(
        gba_trans,
        acc_t,
        states,
        x,
        (#[trigger] trans[x])@,
    ) by {
        if x < head {
            assert(trans[x] == old_trans[x]);
            assert(served(gba_trans, acc_t, before, x));
            assert(before[x].level <= acc_t.len());
            lemma_row_stable(gba_trans, acc_t, before, states, x, old_trans[x]@);
        }
    }
    assert forall|x: int| 0 <= x < trans.len() implies #[trigger] served(gba_trans, acc_t, states, x) by {
        if x < head {
            assert(trans[x] == old_trans[x]);
            assert(served(gba_trans, acc_t, before, x));
            assert(row_at(gba_trans, acc_t, before, x, old_trans[x]@));
            assert(before[x].level <= acc_t.len());
            lemma_row_stable(gba_trans, acc_t, before, states, x, old_trans[x]@);
        }
    }
    assert forall|j: int| 0 <= j < n0 implies (#[trigger] states[j]).level == 0 && occurs(
        gba_initial,
        states[j].state,
    ) by {
        assert(states[j] == before[j]);
    }
    assert forall|j: int| n0 <= j < states.len() implies #[trigger] came(
        gba_initial,
        gba_trans,
        acc_t,
        states,
        j,
    ) by {
        if j < before.len() {
            assert(came(gba_initial, gba_trans, acc_t, before, j));
            assert(states[j] == before[j]);
            if !(before[j].level == 0 && occurs(gba_initial, before[j].state)) {
                let x = choose|x: int| 0 <= x < j && #[trigger] entered_from(gba_trans, acc_t, before, x, j);
                assert(states[x] == before[x]);
                let k = choose|k: int|
                    0 <= k < gba_trans[before[x].state as int]@.len() && before[j].state == (
                    #[trigger] gba_trans[before[x].state as int]@[k]).target && next_level(
                        acc_t,
                        before[x].level as int,
                        (before[x].state, gba_trans[before[x].state as int]@[k].elem()),
                        before[j].level as int,
                    );
                assert(entered_from(gba_trans, acc_t, states, x, j));
            }
        } else {
            assert(entered_from(gba_trans, acc_t, states, head, j));
        }
    }
}

/// One of the first `n0` states is the state at the level.
pub open spec fn placed_below(states: Seq<Level>, n0: int, c: (usize, usize)) -> bool {
    exists|x: int| 0 <= x < n0 && (#[trigger] states[x]).elem() == c
}

/// When all states are visited, they are the expansion.
proof fn lemma_expanded(
    gba_initial: Seq<usize>,
    gba_trans: Seq<Vec<SimpleTransition>>,
    acc_t: Seq<AccFamily>,
    states: Seq<Level>,
    trans: Seq<Vec<SimpleTransition>>,
    initial: Seq<usize>,
    n0: int,
)
    requires
        expanding(gba_initial, gba_trans, acc_t, states, trans, n0),
        trans.len() == states.len(),
        forall|k: int|
            0 <= k < gba_initial.len() ==> placed_below(states, n0, ((#[trigger] gba_initial[k]), 0usize)),
        forall|x: usize| #[trigger] occurs(initial, x) <==> x < n0,
    ensures
        expansion(gba_initial, gba_trans, acc_t, states, trans, initial),
{
    assert forall|j: int| 0 <= j < states.len() implies #[trigger] came(
        gba_initial,
        gba_trans,
        acc_t,
        states,
        j,
    ) by {
        if j < n0 {
            assert(states[j].level == 0 && occurs(gba_initial, states[j].state));
        }
    }
    assert forall|k: int| 0 <= k < gba_initial.len() implies occurs(
        states,
        ((#[trigger] gba_initial[k]), 0usize),
    ) by {
        assert(placed_below(states, n0, (gba_initial[k], 0usize)));
    }
    assert forall|x: usize| #[trigger]
        occurs(initial, x) <==> x < states.len() && states[x as int].level == 0 && occurs(
            gba_initial,
            states[x as int].state,
        ) by {
        if x < states.len() && states[x as int].level == 0 && occurs(gba_initial, states[x as int].state) {
            let k = choose|k: int|
                0 <= k < gba_initial.len() && (#[trigger] gba_initial[k]).elem() == states[x as int].state;
            assert(placed_below(states, n0, (gba_initial[k], 0usize)));
            let y = choose|y: int| 0 <= y < n0 && (#[trigger] states[y]).elem() == (gba_initial[k], 0usize);
            lemma_one_place(states, x as int, y);
        }
        if x < n0 {
            assert(states[x as int].level == 0 && occurs(gba_initial, states[x as int].state));
        }
    }
}

/// The states that are reached from the initial states at level zero, each
/// with the transitions that leave it, and the places of the initial ones.
pub fn expand(gba: &GBA, acc_t: &Vec<AccFamily>) -> (res: (Vec<Level>, Vec<Vec<SimpleTransition>>, Vec<usize>))
    requires
        gba.wf(),
    ensures
        expansion(gba.initial@, gba.trans_f@, acc_t@, res.0@, res.1@, res.2@),
        all_below(res.2@, res.0@.len() as int),
{
    let (mut states, initial) = initial_levels(gba, acc_t.len());
    let ghost n0 = states@.len() as int;
    let ghost begun = states@;
    let ghost gi = gba.initial@;
    let ghost gt = gba.trans_f@;
    let mut trans: Vec<Vec<SimpleTransition>> = Vec::new();
    let mut head: usize = 0;
    proof {
        assert forall|k: int| 0 <= k < gi.len() implies placed_below(begun, n0, ((#[trigger] gi[k]), 0usize)) by {
            let x = choose|x: int| 0 <= x < begun.len() && (#[trigger] begun[x]).elem() == (gi[k], 0usize);
            assert(begun[x].elem() == (gi[k], 0usize));
        }
    }
    while head < states.len()
        invariant
            gba.wf(),
            gi == gba.initial@,
            gt == gba.trans_f@,
            head <= states@.len(),
            trans@.len() == head,
            expanding(gi, gt, acc_t@, states@, trans@, n0),
            grown(begun, states@),
            n0 == begun.len(),
            forall|k: int| 0 <= k < gi.len() ==> placed_below(begun, n0, ((#[trigger] gi[k]), 0usize)),
        decreases usize::MAX - head,
    {
        let ghost before = states@;
        let ghost old_trans = trans@;
        let out = delta(gba, acc_t, &mut states, head);
        trans.push(out);
        proof {
            lemma_expand_step(gi, gt, acc_t@, before, states@, old_trans, trans@, out, n0);
            assert(grown(begun, states@)) by {
                assert forall|x: int| 0 <= x < begun.len() implies #[trigger] states@[x] == begun[x] by {
                    assert(before[x] == begun[x]);
                }
            }
        }
        head = head + 1;
    }
    proof {
        assert forall|k: int| 0 <= k < gi.len() implies placed_below(
            states@,
            n0,
            ((#[trigger] gi[k]), 0usize),
        ) by {
            assert(placed_below(begun, n0, (gi[k], 0usize)));
            let x = choose|x: int| 0 <= x < n0 && (#[trigger] begun[x]).elem() == (gi[k], 0usize);
            assert(states@[x] == begun[x]);
        }
        lemma_expanded(gi, gt, acc_t@, states@, trans@, initial@, n0);
        assert(all_below(initial@, states@.len() as int)) by {
            assert forall|i: int| 0 <= i < initial@.len() implies (#[trigger] initial@[i]) < states@.len() by {
                assert(occurs(initial@, initial@[i].elem()));
            }
        }
    }
    (states, trans, initial)
}

/// For each state, whether it is at the last level.
pub open spec fn at_last(states: Seq<Level>, r: int) -> Seq<bool> {
    Seq::new(states.len(), |i: int| states[i].level == r)
}

/// For each state, whether it is at the last level.
fn last_marks(states: &Vec<Level>, r: usize) -> (marks: Vec<bool>)
    ensures
        marks@ == at_last(states@, r as int),
{
    let n = states.len();
    let mut marks: Vec<bool> = Vec::new();
    let mut i: usize = 0;
    while i < n
        invariant
            i <= n,
            n == states@.len(),
            marks@.len() == i,
            forall|x: int| 0 <= x < i ==> (#[trigger] marks@[x]) == (states@[x].level == r),
        decreases n - i,
    {
        marks.push(states[i].level == r);
        i = i + 1;
    }
    assert(marks@ =~= at_last(states@, r as int));
    marks
}

/// The states that are marked.
pub open spec fn marked(marks: Seq<bool>) -> Set<usize> {
    Set::new(|x: usize| x < marks.len() && marks[x as int])
}

/// The states among the first `i` that are marked.
pub open spec fn marked_upto(marks: Seq<bool>, i: int) -> Set<usize> {
    Set::new(|x: usize| x < i && x < marks.len() && marks[x as int])
}

/// The numbers of the states that are marked.
fn marked_numbers(marks: &Vec<bool>, ids: &Vec<usize>) -> (out: Vec<usize>)
    requires
        marks@.len() == ids@.len(),
    ensures
        elems(out@) == numbers_of(marked(marks@), ids@),
        distinct(out@),
        forall|x: int| 0 <= x < out@.len() ==> occurs(ids@, #[trigger] out@[x]),
{
    let n = marks.len();
    let mut out: Vec<usize> = Vec::new();
    let mut i: usize = 0;
    proof {
        assert(marked_upto(marks@, 0) =~= Set::<usize>::empty());
        assert(elems(out@) =~= numbers_of(marked_upto(marks@, 0), ids@));
    }
    while i < n
        invariant
            i <= n,
            n == marks@.len(),
            n == ids@.len(),
            elems(out@) == numbers_of(marked_upto(marks@, i as int), ids@),
            distinct(out@),
            forall|x: int| 0 <= x < out@.len() ==> occurs(ids@, #[trigger] out@[x]),
        decreases n - i,
    {
        let ghost before = out@;
        if marks[i] {
            proof {
                assert(marked_upto(marks@, i as int + 1) =~= marked_upto(marks@, i as int).insert(i));
                lemma_numbers_insert(marked_upto(marks@, i as int), i, ids@);
            }
            put(&mut out, ids[i]);
            proof {
                assert forall|x: int| 0 <= x < out@.len() implies occurs(ids@, #[trigger] out@[x]) by {
                    if x < before.len() {
                        assert(out@[x] == before[x]);
                    } else {
                        assert(ids@[i as int].elem() == out@[x]);
                    }
                }
            }
        } else {
            proof {
                assert(marked_upto(marks@, i as int + 1) =~= marked_upto(marks@, i as int));
            }
        }
        i = i + 1;
    }
    proof {
        assert(marked_upto(marks@, n as int) =~= marked(marks@));
    }
    out
}

/// What is built on the way from the second automaton to the third.
pub struct Sketch {
    /// The places of the families in the order of their sizes.
    pub order: Seq<usize>,
    /// The families in that order.
    pub families: Seq<AccFamily>,
    /// The states at their levels.
    pub states: Seq<Level>,
    /// The places of the initial states.
    pub first: Seq<usize>,
    /// The transitions that leave each state.
    pub trans: Seq<Vec<SimpleTransition>>,
    /// How the states are merged and numbered.
    pub merging: Merging,
}

impl BA {
    /// The automaton is built from the generalised automaton by way of
    /// `d`: the families are set in the order of their sizes; the states
    /// are the states of the generalised automaton at the levels at which
    /// runs arrive; the states at the last level are final; the states are
    /// merged and numbered; and the automaton holds the transitions, the
    /// initial and the final states under the new numbers, and the labels of
    /// its transitions.
    pub open spec fn built_from(&self, gba: &GBA, d: Sketch) -> bool {
        let ids = d.merging.ids@;
        let marks = at_last(d.states, d.families.len() as int);
        &&& in_order(gba.acc_transitions@, d.order)
        &&& arranged(gba.acc_transitions@, d.order, d.families)
        &&& expansion(gba.initial@, gba.trans_f@, d.families, d.states, d.trans, d.first)
        &&& d.merging.merges(d.trans, marks)
        &&& self.transitions@.len() == d.merging.count
        &&& forall|c: int|
            0 <= c < self.transitions@.len() ==> elems((#[trigger] self.transitions@[c])@) == led(
                elems(d.trans[d.merging.origin@[c] as int]@),
                ids,
            )
        &&& elems(self.initials@) == numbers_of(elems(d.first), ids)
        &&& elems(self.finals@) == numbers_of(marked(marks), ids)
        &&& forall|a: Set<Ltl>| #[trigger] occurs(self.symbols@, a) <==> labels(self.transitions@, a)
    }

    /// The automaton is the Büchi automaton of the generalised Büchi
    /// automaton.
    pub open spec fn is_ba_of(&self, gba: &GBA) -> bool {
        exists|d: Sketch| self.built_from(gba, d)
    }
}

/// The numbers are below `count` where they are among numbers below it.
proof fn lemma_numbers_below(list: Seq<usize>, ids: Seq<usize>, count: int)
    requires
        all_below(ids, count),
        forall|x: int| 0 <= x < list.len() ==> occurs(ids, #[trigger] list[x]),
    ensures
        all_below(list, count),
{
    assert forall|i: int| 0 <= i < list.len() implies (#[trigger] list[i]) < count by {
        assert(occurs(ids, list[i]));
        let y = choose|y: int| 0 <= y < ids.len() && (#[trigger] ids[y]).elem() == list[i];
        assert(ids[y] < count);
    }
}

/// The Büchi automaton of a generalised Büchi automaton. A state is a state
/// of the generalised automaton at a level; the run is at the last level
/// after it has taken a transition of each family in turn. Transitions that
/// ask for less than another one to the same state are removed, states with
/// the same transitions that are both final or both not are merged, and the
/// states are numbered.
pub fn to_ba(gba: &GBA) -> (res: BA)
    requires
        gba.wf(),
    ensures
        res.wf(),
        res.labelled(),
        res.is_ba_of(gba),
{
    let (acc_t, order) = sorted_families(gba);
    let r = acc_t.len();
    let (states, trans, first) = expand(gba, &acc_t);
    let marks = last_marks(&states, r);
    let merging = merge_states(&trans, &marks);
    let transitions = renumber(&trans, &merging);
    let symbols = labels_of(&transitions);
    let initials = renumber_list(&first, &merging.ids);
    let finals = marked_numbers(&marks, &merging.ids);
    let ghost d = Sketch {
        order: order@,
        families: acc_t@,
        states: states@,
        first: first@,
        trans: trans@,
        merging,
    };
    let res = BA { initials, symbols, transitions, finals };
    proof {
        lemma_numbers_below(res.initials@, merging.ids@, merging.count as int);
        lemma_numbers_below(res.finals@, merging.ids@, merging.count as int);
        assert(res.built_from(gba, d));
        assert forall|s: int, i: int|
            0 <= s < res.transitions@.len() && 0 <= i < res.transitions@[s]@.len() implies occurs(
            res.symbols@,
            (#[trigger] res.transitions@[s]@[i]).props@,
        ) by {
            assert(labels(res.transitions@, res.transitions@[s]@[i].props@));
        }
    }
    res
}

} // verus!
