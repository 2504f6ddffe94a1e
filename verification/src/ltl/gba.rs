//! Generalised Büchi automata: the second automaton of a formula. A state is
//! a conjunction of states of the first automaton; a run is accepted if, for
//! each until that the formula holds, it takes infinitely many transitions
//! of that until's family.

use crate::listset::{
    distinct, elems, find, included, lemma_push_elems, member, occurs, put, without, Element,
};
use crate::ltl::common::{
    all_below, closed_below, flat, led, merge_states, numbers_of, renumber, renumber_list,
    targets_below, Alphabet, Conjuction, Merging, SimpleTransition,
};
use crate::ltl::formula::{And, Ltl, PhiOp};
use crate::ltl::vwaa::{big_delta, cross, delta, stay, Transition, VWAA};
use vstd::prelude::*;

verus! {

/// A transition between conjunctions.
#[derive(Debug)]
pub struct ConjTransition {
    pub props: Alphabet,
    pub target: Conjuction,
}

impl Element for ConjTransition {
    type Model = (Set<Ltl>, Set<Ltl>);

    open spec fn elem(&self) -> (Set<Ltl>, Set<Ltl>) {
        (self.props@, self.target@)
    }

    fn eq_elem(&self, other: &ConjTransition) -> (res: bool) {
        self.props.eq_elem(&other.props) && self.target.eq_elem(&other.target)
    }

    fn copy_elem(&self) -> (res: ConjTransition) {
        ConjTransition { props: self.props.copy_elem(), target: self.target.copy_elem() }
    }
}

/// A transition together with the state that it leaves.
#[derive(Debug)]
pub struct AccTransition {
    pub source: usize,
    pub transition: SimpleTransition,
}

impl Element for AccTransition {
    type Model = (usize, (Set<Ltl>, usize));

    open spec fn elem(&self) -> (usize, (Set<Ltl>, usize)) {
        (self.source, self.transition.elem())
    }

    fn eq_elem(&self, other: &AccTransition) -> (res: bool) {
        self.source == other.source && self.transition.eq_elem(&other.transition)
    }

    fn copy_elem(&self) -> (res: AccTransition) {
        AccTransition { source: self.source, transition: self.transition.copy_elem() }
    }
}

/// The accepting transitions of one until.
#[derive(Debug)]
pub struct AccFamily {
    pub phi: PhiOp,
    pub transitions: Vec<AccTransition>,
}

/// A generalised Büchi automaton with numbered states.
#[derive(Debug)]
#[allow(clippy::upper_case_acronyms)]
pub struct GBA {
    pub initial: Vec<usize>,
    /// The transitions that leave each state.
    pub trans_f: Vec<Vec<SimpleTransition>>,
    /// One family of accepting transitions for each until.
    pub acc_transitions: Vec<AccFamily>,
}

/// Every member leaves one of `n` states and leads to one.
pub open spec fn family_below(f: Seq<AccTransition>, n: int) -> bool {
    forall|i: int| 0 <= i < f.len() ==> (#[trigger] f[i]).source < n && f[i].transition.target < n
}

/// Every family lies within `n` states.
pub open spec fn families_below(fs: Seq<AccFamily>, n: int) -> bool {
    forall|k: int| 0 <= k < fs.len() ==> family_below((#[trigger] fs[k]).transitions@, n)
}

impl GBA {
    /// The number of states.
    pub open spec fn size(&self) -> int {
        self.trans_f@.len() as int
    }

    /// Initial states, transitions and accepting transitions name states of
    /// the automaton only.
    pub open spec fn wf(&self) -> bool {
        &&& all_below(self.initial@, self.size())
        &&& closed_below(self.trans_f@, self.size())
        &&& families_below(self.acc_transitions@, self.size())
    }
}

/// The product of the transitions of the first `k` members of a
/// conjunction; of none, the one transition that stays at `true`.
pub open spec fn product(members: Seq<PhiOp>, k: int) -> Set<(Set<Ltl>, Ltl)>
    decreases k,
{
    if k <= 0 {
        stay(Ltl::True)
    } else if k == 1 {
        delta(members[0]@)
    } else {
        cross(product(members, k - 1), delta(members[k - 1]@))
    }
}

/// The transitions that leave a conjunction: the product of the
/// transitions of its members.
pub fn delta2(conj: &Conjuction) -> (res: Vec<Transition>)
    ensures
        elems(res@) == product(conj.0@, conj.0@.len() as int),
        distinct(res@),
{
    let n = conj.0.len();
    if n == 0 {
        let mut res: Vec<Transition> = Vec::new();
        assert(elems(res@) =~= Set::<(Set<Ltl>, Ltl)>::empty());
        put(&mut res, Transition::new(Alphabet::full(), PhiOp::True(crate::ltl::formula::True)));
        return res;
    }
    let mut res = big_delta(&conj.0[0]);
    let mut i: usize = 1;
    while i < n
        invariant
            n == conj.0@.len(),
            1 <= i <= n,
            elems(res@) == product(conj.0@, i as int),
            distinct(res@),
        decreases n - i,
    {
        let next = big_delta(&conj.0[i]);
        res = Transition::cross_op(&res, &next);
        i = i + 1;
    }
    res
}

/// The list `b` is the list `a` with more members.
pub open spec fn grown(a: Seq<Conjuction>, b: Seq<Conjuction>) -> bool {
    a.len() <= b.len() && forall|i: int| 0 <= i < a.len() ==> #[trigger] b[i] == a[i]
}

/// The place of the conjunction in the list; it is appended where it is
/// new.
fn find_or_add(states: &mut Vec<Conjuction>, c: Conjuction) -> (at: usize)
    requires
        distinct(old(states)@),
    ensures
        at < final(states)@.len(),
        final(states)@[at as int]@ == c@,
        grown(old(states)@, final(states)@),
        final(states)@.len() <= old(states)@.len() + 1,
        final(states)@.len() > old(states)@.len() ==> at == old(states)@.len(),
        distinct(final(states)@),
{
    match find(states, &c) {
        Some(at) => at,
        None => {
            proof {
                lemma_push_elems(states@, c);
            }
            states.push(c);
            states.len() - 1
        },
    }
}

/// The transitions that leave a conjunction.
pub open spec fn out_of(c: Conjuction) -> Set<(Set<Ltl>, Ltl)> {
    product(c.0@, c.0@.len() as int)
}

/// Transition `t` between numbered states is transition `from` between
/// formulae: it has its label, and it leads to the place of the
/// conjunction that `from` leads to.
pub open spec fn copies(states: Seq<Conjuction>, t: (Set<Ltl>, usize), from: (Set<Ltl>, Ltl)) -> bool {
    t.0 == from.0 && t.1 < states.len() && states[t.1 as int]@ == flat(from.1)
}

/// Transition `t` leaves state `s`.
pub open spec fn leaves(states: Seq<Conjuction>, s: int, t: (Set<Ltl>, usize)) -> bool {
    exists|from: (Set<Ltl>, Ltl)| #[trigger] out_of(states[s]).contains(from) && copies(states, t, from)
}

/// The list holds the transitions that leave state `s`.
pub open spec fn row_of(states: Seq<Conjuction>, s: int, row: Seq<SimpleTransition>) -> bool {
    forall|t: (Set<Ltl>, usize)| #[trigger] occurs(row, t) <==> leaves(states, s, t)
}

/// Every conjunction to which a transition of state `s` leads is among the
/// states.
pub open spec fn served(states: Seq<Conjuction>, s: int) -> bool {
    forall|from: (Set<Ltl>, Ltl)| #[trigger]
        out_of(states[s]).contains(from) ==> occurs(states, flat(from.1))
}

/// A transition of the list leads to state `j`.
pub open spec fn entered_by(row: Seq<SimpleTransition>, j: int) -> bool {
    exists|k: int| 0 <= k < row.len() && (#[trigger] row[k]).target == j
}

/// Transition `t` is one of the first `i` transitions of the list.
pub open spec fn copied_upto(
    states: Seq<Conjuction>,
    tr: Seq<Transition>,
    i: int,
    t: (Set<Ltl>, usize),
) -> bool {
    exists|j: int| 0 <= j < i && copies(states, t, (#[trigger] tr[j]).elem())
}

/// In a list without repetitions, a conjunction has one place.
proof fn lemma_one_place(states: Seq<Conjuction>, x: int, y: int)
    requires
        distinct(states),
        0 <= x < states.len(),
        0 <= y < states.len(),
        states[x]@ == states[y]@,
    ensures
        x == y,
{
    if x < y {
        assert(states[x].elem() != states[y].elem());
    }
    if y < x {
        assert(states[y].elem() != states[x].elem());
    }
}

/// Entering one more transition keeps the row as it must be.
proof fn lemma_successor_step(
    before: Seq<Conjuction>,
    states: Seq<Conjuction>,
    tr: Seq<Transition>,
    i: int,
    row_before: Seq<SimpleTransition>,
    row: Seq<SimpleTransition>,
    at: usize,
)
    requires
        0 <= i < tr.len(),
        grown(before, states),
        distinct(states),
        at < states.len(),
        states[at as int]@ == flat(tr[i].target@),
        forall|t: (Set<Ltl>, usize)| #[trigger] occurs(row_before, t) <==> copied_upto(before, tr, i, t),
        forall|j: int| 0 <= j < i ==> occurs(before, flat((#[trigger] tr[j]).target@)),
        elems(row) == elems(row_before).insert((tr[i].props@, at)),
    ensures
        forall|t: (Set<Ltl>, usize)| #[trigger] occurs(row, t) <==> copied_upto(states, tr, i + 1, t),
        forall|j: int| 0 <= j < i + 1 ==> occurs(states, flat((#[trigger] tr[j]).target@)),
{
    assert forall|j: int| 0 <= j < i + 1 implies occurs(states, flat((#[trigger] tr[j]).target@)) by {
        if j < i {
            let x = choose|x: int| 0 <= x < before.len() && (#[trigger] before[x]).elem() == flat(tr[j].target@);
            assert(states[x] == before[x]);
        } else {
            assert(states[at as int].elem() == flat(tr[i].target@));
        }
    }
    assert forall|t: (Set<Ltl>, usize)| #[trigger] occurs(row, t) <==> copied_upto(
        states,
        tr,
        i + 1,
        t,
    ) by {
        assert(occurs(row, t) <==> elems(row).contains(t));
        assert(occurs(row_before, t) <==> elems(row_before).contains(t));
        if occurs(row, t) {
            if occurs(row_before, t) {
                let j = choose|j: int| 0 <= j < i && copies(before, t, (#[trigger] tr[j]).elem());
                assert(states[t.1 as int] == before[t.1 as int]);
                assert(copies(states, t, tr[j].elem()));
            } else {
                assert(copies(states, t, tr[i].elem()));
            }
        }
        if copied_upto(states, tr, i + 1, t) {
            let j = choose|j: int| 0 <= j < i + 1 && copies(states, t, (#[trigger] tr[j]).elem());
            if j == i {
                lemma_one_place(states, t.1 as int, at as int);
                assert(t == (tr[i].props@, at));
            } else {
                let x = choose|x: int|
                    0 <= x < before.len() && (#[trigger] before[x]).elem() == flat(tr[j].target@);
                assert(states[x] == before[x]);
                lemma_one_place(states, t.1 as int, x);
                assert(copies(before, t, tr[j].elem()));
            }
        }
    }
}

/// The transitions that leave state `head`, with each target entered in
/// the list of states.
fn successors(states: &mut Vec<Conjuction>, head: usize) -> (out: Vec<SimpleTransition>)
    requires
        head < old(states)@.len(),
        distinct(old(states)@),
    ensures
        grown(old(states)@, final(states)@),
        distinct(final(states)@),
        targets_below(out@, final(states)@.len() as int),
        distinct(out@),
        row_of(final(states)@, head as int, out@),
        served(final(states)@, head as int),
        forall|j: int| old(states)@.len() <= j < final(states)@.len() ==> #[trigger] entered_by(out@, j),
{
    let transitions = delta2(&states[head]);
    let ghost tr = transitions@;
    let mut out: Vec<SimpleTransition> = Vec::new();
    let mut i: usize = 0;
    while i < transitions.len()
        invariant
            i <= transitions@.len(),
            tr == transitions@,
            head < old(states)@.len(),
            grown(old(states)@, states@),
            distinct(states@),
            targets_below(out@, states@.len() as int),
            distinct(out@),
            forall|t: (Set<Ltl>, usize)| #[trigger] occurs(out@, t) <==> copied_upto(states@, tr, i as int, t),
            forall|j: int| 0 <= j < i ==> occurs(states@, flat((#[trigger] tr[j]).target@)),
            forall|j: int| old(states)@.len() <= j < states@.len() ==> #[trigger] entered_by(out@, j),
        decreases transitions@.len() - i,
    {
        let target = Conjuction(And::flatten(&transitions[i].target));
        let ghost before_states = states@;
        let at = find_or_add(states, target);
        let t = SimpleTransition { props: transitions[i].props.copy_elem(), target: at };
        let ghost before = out@;
        put(&mut out, t);
        proof {
            lemma_successor_step(before_states, states@, tr, i as int, before, out@, at);
            assert(targets_below(out@, states@.len() as int)) by {
                assert forall|j: int| 0 <= j < out@.len() implies (#[trigger] out@[j]).target
                    < states@.len() by {
                    if j < before.len() {
                        assert(before[j].target < before_states.len());
                    }
                }
            }
            assert(occurs(out@, t.elem())) by {
                assert(elems(out@).contains(t.elem()));
            }
            let k0 = choose|k: int| 0 <= k < out@.len() && (#[trigger] out@[k]).elem() == t.elem();
            assert forall|j: int| old(states)@.len() <= j < states@.len() implies #[trigger] entered_by(
                out@,
                j,
            ) by {
                if j < before_states.len() {
                    assert(entered_by(before, j));
                    let k = choose|k: int| 0 <= k < before.len() && (#[trigger] before[k]).target == j;
                    assert(out@[k] == before[k]);
                } else {
                    assert(out@[k0].target == j);
                }
            }
            assert(grown(old(states)@, states@)) by {
                assert forall|x: int| 0 <= x < old(states)@.len() implies #[trigger] states@[x] == old(
                    states,
                )@[x] by {
                    assert(before_states[x] == old(states)@[x]);
                }
            }
        }
        i = i + 1;
    }
    proof {
        let now = states@;
        assert(now[head as int] == old(states)@[head as int]);
        assert(elems(tr) == out_of(now[head as int]));
        assert forall|t: (Set<Ltl>, usize)| #[trigger] occurs(out@, t) <==> leaves(now, head as int, t) by {
            if occurs(out@, t) {
                let j = choose|j: int| 0 <= j < tr.len() && copies(now, t, (#[trigger] tr[j]).elem());
                assert(elems(tr).contains(tr[j].elem())) by {
                    assert(occurs(tr, tr[j].elem()));
                }
            }
            if leaves(now, head as int, t) {
                let from = choose|from: (Set<Ltl>, Ltl)| #[trigger]
                    out_of(now[head as int]).contains(from) && copies(now, t, from);
                assert(occurs(tr, from));
                let j = choose|j: int| 0 <= j < tr.len() && (#[trigger] tr[j]).elem() == from;
                assert(copied_upto(now, tr, i as int, t));
            }
        }
        assert forall|from: (Set<Ltl>, Ltl)| #[trigger]
            out_of(now[head as int]).contains(from) implies occurs(now, flat(from.1)) by {
            assert(occurs(tr, from));
            let j = choose|j: int| 0 <= j < tr.len() && (#[trigger] tr[j]).elem() == from;
            assert(occurs(now, flat(tr[j].target@)));
        }
    }
    out
}

/// The transitions of a state stay what they must be where the list of
/// states grows.
proof fn lemma_row_stable(
    before: Seq<Conjuction>,
    states: Seq<Conjuction>,
    s: int,
    row: Seq<SimpleTransition>,
)
    requires
        grown(before, states),
        distinct(states),
        0 <= s < before.len(),
        served(before, s),
        row_of(before, s, row),
    ensures
        served(states, s),
        row_of(states, s, row),
{
    assert(states[s] == before[s]);
    assert forall|from: (Set<Ltl>, Ltl)| #[trigger] out_of(states[s]).contains(from) implies occurs(
        states,
        flat(from.1),
    ) by {
        assert(occurs(before, flat(from.1)));
        let x = choose|x: int| 0 <= x < before.len() && (#[trigger] before[x]).elem() == flat(from.1);
        assert(states[x] == before[x]);
    }
    assert forall|t: (Set<Ltl>, usize)| #[trigger] occurs(row, t) <==> leaves(states, s, t) by {
        assert(occurs(row, t) <==> leaves(before, s, t));
        if leaves(before, s, t) {
            let from = choose|from: (Set<Ltl>, Ltl)| #[trigger]
                out_of(before[s]).contains(from) && copies(before, t, from);
            assert(states[t.1 as int] == before[t.1 as int]);
            assert(out_of(states[s]).contains(from) && copies(states, t, from));
        }
        if leaves(states, s, t) {
            let from = choose|from: (Set<Ltl>, Ltl)| #[trigger]
                out_of(states[s]).contains(from) && copies(states, t, from);
            assert(occurs(before, flat(from.1)));
            let x = choose|x: int| 0 <= x < before.len() && (#[trigger] before[x]).elem() == flat(from.1);
            assert(states[x] == before[x]);
            lemma_one_place(states, t.1 as int, x);
            assert(out_of(before[s]).contains(from) && copies(before, t, from));
        }
    }
}

/// State `j` is an initial conjunction, or a transition of a state before
/// it leads to it.
pub open spec fn came(
    first: Seq<Conjuction>,
    states: Seq<Conjuction>,
    trans: Seq<Vec<SimpleTransition>>,
    j: int,
) -> bool {
    occurs(first, states[j]@) || exists|s: int|
        0 <= s < j && s < trans.len() && entered_by((#[trigger] trans[s])@, j)
}

/// The states are the conjunctions that are reached from the conjunctions
/// `first`, each once; `trans` holds the transitions that leave each; and
/// `initial` holds the places of the conjunctions `first`.
pub open spec fn expansion(
    first: Seq<Conjuction>,
    states: Seq<Conjuction>,
    trans: Seq<Vec<SimpleTransition>>,
    initial: Seq<usize>,
) -> bool {
    &&& trans.len() == states.len()
    &&& distinct(states)
    &&& closed_below(trans, states.len() as int)
    &&& forall|s: int| 0 <= s < states.len() ==> row_of(states, s, (#[trigger] trans[s])@)
    &&& forall|s: int| 0 <= s < states.len() ==> #[trigger] served(states, s)
    &&& forall|j: int| 0 <= j < states.len() ==> #[trigger] came(first, states, trans, j)
    &&& forall|k: int| 0 <= k < first.len() ==> occurs(states, (#[trigger] first[k])@)
    &&& forall|x: usize| #[trigger] occurs(initial, x) <==> x < states.len() && occurs(first, states[x as int]@)
}

/// The places of the initial conjunctions, which are entered in the list
/// of states.
fn initial_states(first: &Vec<Conjuction>) -> (res: (Vec<Conjuction>, Vec<usize>))
    ensures
        distinct(res.0@),
        forall|j: int| 0 <= j < res.0@.len() ==> occurs(first@, (#[trigger] res.0@[j])@),
        forall|k: int| 0 <= k < first@.len() ==> occurs(res.0@, (#[trigger] first@[k])@),
        forall|x: usize| #[trigger] occurs(res.1@, x) <==> x < res.0@.len(),
{
    let mut states: Vec<Conjuction> = Vec::new();
    let mut initial: Vec<usize> = Vec::new();
    let mut i: usize = 0;
    while i < first.len()
        invariant
            i <= first@.len(),
            distinct(states@),
            forall|j: int| 0 <= j < states@.len() ==> occurs(first@, (#[trigger] states@[j])@),
            forall|k: int| 0 <= k < i ==> occurs(states@, (#[trigger] first@[k])@),
            forall|x: usize| #[trigger] occurs(initial@, x) <==> x < states@.len(),
        decreases first@.len() - i,
    {
        let ghost before_states = states@;
        let ghost before = initial@;
        let at = find_or_add(&mut states, first[i].copy_elem());
        put(&mut initial, at);
        proof {
            assert forall|j: int| 0 <= j < states@.len() implies occurs(
                first@,
                (#[trigger] states@[j])@,
            ) by {
                if j < before_states.len() {
                    assert(states@[j] == before_states[j]);
                } else {
                    assert(first@[i as int].elem() == states@[j]@);
                }
            }
            assert forall|k: int| 0 <= k < i + 1 implies occurs(states@, (#[trigger] first@[k])@) by {
                if k < i {
                    let x = choose|x: int|
                        0 <= x < before_states.len() && (#[trigger] before_states[x]).elem() == first@[k]@;
                    assert(states@[x] == before_states[x]);
                } else {
                    assert(states@[at as int].elem() == first@[k]@);
                }
            }
            assert forall|x: usize| #[trigger] occurs(initial@, x) <==> x < states@.len() by {
                assert(occurs(initial@, x) <==> elems(initial@).contains(x));
                assert(occurs(before, x) <==> elems(before).contains(x));
            }
        }
        i = i + 1;
    }
    (states, initial)
}

/// What holds while the states are visited: the states before `head` have
/// their transitions, and each state after the first `n0` is entered.
pub open spec fn expanding(
    first: Seq<Conjuction>,
    states: Seq<Conjuction>,
    trans: Seq<Vec<SimpleTransition>>,
    n0: int,
) -> bool {
    &&& trans.len() <= states.len()
    &&& 0 <= n0 <= states.len()
    &&& distinct(states)
    &&& closed_below(trans, states.len() as int)
    &&& forall|s: int| 0 <= s < trans.len() ==> row_of(states, s, (#[trigger] trans[s])@)
    &&& forall|s: int| 0 <= s < trans.len() ==> #[trigger] served(states, s)
    &&& forall|j: int| 0 <= j < n0 ==> occurs(first, (#[trigger] states[j])@)
    &&& forall|j: int| n0 <= j < states.len() ==> #[trigger] came(first, states, trans, j)
}

/// Visiting one more state keeps what holds while the states are visited.
proof fn lemma_expand_step(
    first: Seq<Conjuction>,
    before: Seq<Conjuction>,
    states: Seq<Conjuction>,
    old_trans: Seq<Vec<SimpleTransition>>,
    trans: Seq<Vec<SimpleTransition>>,
    out: Vec<SimpleTransition>,
    n0: int,
)
    requires
        expanding(first, before, old_trans, n0),
        old_trans.len() < before.len(),
        trans == old_trans.push(out),
        grown(before, states),
        distinct(states),
        targets_below(out@, states.len() as int),
        row_of(states, old_trans.len() as int, out@),
        served(states, old_trans.len() as int),
        forall|j: int| before.len() <= j < states.len() ==> #[trigger] entered_by(out@, j),
    ensures
        expanding(first, states, trans, n0),
{
    let head = old_trans.len() as int;
    assert forall|s: int| 0 <= s < trans.len() implies targets_below(
        (#[trigger] trans[s])@,
        states.len() as int,
    ) by {
        if s < head {
            assert(targets_below(old_trans[s]@, before.len() as int));
        }
    }
    assert forall|s: int| 0 <= s < trans.len() implies row_of(states, s, (#[trigger] trans[s])@) by {
        if s < head {
            assert(trans[s] == old_trans[s]);
            assert(served(before, s));
            lemma_row_stable(before, states, s, old_trans[s]@);
        }
    }
    assert forall|s: int| 0 <= s < trans.len() implies #[trigger] served(states, s) by {
        if s < head {
            assert(trans[s] == old_trans[s]);
            assert(served(before, s));
            assert(row_of(before, s, old_trans[s]@));
            lemma_row_stable(before, states, s, old_trans[s]@);
        }
    }
    assert forall|j: int| 0 <= j < n0 implies occurs(first, (#[trigger] states[j])@) by {
        assert(states[j] == before[j]);
    }
    assert forall|j: int| n0 <= j < states.len() implies #[trigger] came(first, states, trans, j) by {
        if j < before.len() {
            assert(came(first, before, old_trans, j));
            assert(states[j] == before[j]);
            if !occurs(first, before[j]@) {
                let s = choose|s: int|
                    0 <= s < j && s < old_trans.len() && entered_by((#[trigger] old_trans[s])@, j);
                assert(trans[s] == old_trans[s]);
            }
        } else {
            assert(entered_by(out@, j));
            assert(trans[head] == out);
        }
    }
}

/// The conjunction is one of the first `n0` states.
pub open spec fn placed_below(states: Seq<Conjuction>, n0: int, c: Set<Ltl>) -> bool {
    exists|x: int| 0 <= x < n0 && (#[trigger] states[x])@ == c
}

/// When all states are visited, they are the expansion.
proof fn lemma_expanded(
    first: Seq<Conjuction>,
    states: Seq<Conjuction>,
    trans: Seq<Vec<SimpleTransition>>,
    initial: Seq<usize>,
    n0: int,
)
    requires
        expanding(first, states, trans, n0),
        trans.len() == states.len(),
        forall|k: int| 0 <= k < first.len() ==> placed_below(states, n0, (#[trigger] first[k])@),
        forall|x: usize| #[trigger] occurs(initial, x) <==> x < n0,
    ensures
        expansion(first, states, trans, initial),
{
    assert forall|j: int| 0 <= j < states.len() implies #[trigger] came(first, states, trans, j) by {
        if j < n0 {
            assert(occurs(first, states[j]@));
        }
    }
    assert forall|k: int| 0 <= k < first.len() implies occurs(states, (#[trigger] first[k])@) by {
        assert(placed_below(states, n0, first[k]@));
        let x = choose|x: int| 0 <= x < n0 && (#[trigger] states[x])@ == first[k]@;
        assert(states[x].elem() == first[k]@);
    }
    assert forall|x: usize| #[trigger] occurs(initial, x) <==> x < states.len() && occurs(
        first,
        states[x as int]@,
    ) by {
        if x < states.len() && occurs(first, states[x as int]@) {
            let k = choose|k: int| 0 <= k < first.len() && (#[trigger] first[k]).elem() == states[x as int]@;
            assert(placed_below(states, n0, first[k]@));
            let y = choose|y: int| 0 <= y < n0 && (#[trigger] states[y])@ == first[k]@;
            lemma_one_place(states, x as int, y);
        }
        if x < n0 {
            assert(occurs(first, states[x as int]@));
        }
    }
}

/// The conjunctions that are reached from the initial ones, each with the
/// transitions that leave it, and the places of the initial ones.
pub fn expand(first: &Vec<Conjuction>) -> (res: (Vec<Conjuction>, Vec<Vec<SimpleTransition>>, Vec<usize>))
    ensures
        expansion(first@, res.0@, res.1@, res.2@),
        all_below(res.2@, res.0@.len() as int),
{
    let (mut states, initial) = initial_states(first);
    let ghost n0 = states@.len() as int;
    let ghost begun = states@;
    let mut trans: Vec<Vec<SimpleTransition>> = Vec::new();
    let mut head: usize = 0;
    proof {
        assert forall|k: int| 0 <= k < first@.len() implies placed_below(
            begun,
            n0,
            (#[trigger] first@[k])@,
        ) by {
            let x = choose|x: int| 0 <= x < states@.len() && (#[trigger] states@[x]).elem() == first@[k]@;
            assert(begun[x]@ == first@[k]@);
        }
    }
    while head < states.len()
        invariant
            head <= states@.len(),
            trans@.len() == head,
            expanding(first@, states@, trans@, n0),
            grown(begun, states@),
            n0 == begun.len(),
            forall|k: int| 0 <= k < first@.len() ==> placed_below(begun, n0, (#[trigger] first@[k])@),
        decreases usize::MAX - head,
    {
        let ghost before = states@;
        let ghost old_trans = trans@;
        let out = successors(&mut states, head);
        trans.push(out);
        proof {
            lemma_expand_step(first@, before, states@, old_trans, trans@, out, n0);
            assert(grown(begun, states@)) by {
                assert forall|x: int| 0 <= x < begun.len() implies #[trigger] states@[x] == begun[x] by {
                    assert(before[x] == begun[x]);
                }
            }
        }
        head = head + 1;
    }
    proof {
        assert forall|k: int| 0 <= k < first@.len() implies placed_below(
            states@,
            n0,
            (#[trigger] first@[k])@,
        ) by {
            assert(placed_below(begun, n0, first@[k]@));
            let x = choose|x: int| 0 <= x < n0 && (#[trigger] begun[x])@ == first@[k]@;
            assert(states@[x] == begun[x]);
        }
        lemma_expanded(first@, states@, trans@, initial@, n0);
        assert(all_below(initial@, states@.len() as int)) by {
            assert forall|i: int| 0 <= i < initial@.len() implies (#[trigger] initial@[i]) < states@.len() by {
                assert(occurs(initial@, initial@[i].elem()));
            }
        }
    }
    (states, trans, initial)
}

/// Whether formula `u` is a member of state `s`.
fn holds_member(states: &Vec<Conjuction>, s: usize, u: &PhiOp) -> (res: bool)
    requires
        s < states@.len(),
    ensures
        res == states@[s as int]@.contains(u@),
{
    member(&states[s].0, u)
}

/// Transition `other`, which leaves the target of `t`, fulfils `u` in
/// place of `t`: it does not lead to `u`, asks for no more than `t`, and
/// leads to no more than `t` does.
pub open spec fn stands_in(
    states: Seq<Conjuction>,
    t: (Set<Ltl>, usize),
    other: (Set<Ltl>, usize),
    u: Ltl,
) -> bool {
    &&& !states[other.1 as int]@.contains(u)
    &&& states[other.1 as int]@.subset_of(states[t.1 as int]@)
    &&& other.0.subset_of(t.0)
}

/// Transition `t` fulfils until `u`: it does not lead to `u`, or a
/// transition of its target stands in for it.
pub open spec fn fulfils(
    states: Seq<Conjuction>,
    trans: Seq<Vec<SimpleTransition>>,
    t: (Set<Ltl>, usize),
    u: Ltl,
) -> bool {
    !states[t.1 as int]@.contains(u) || exists|i: int|
        0 <= i < trans[t.1 as int]@.len() && stands_in(
            states,
            t,
            (#[trigger] trans[t.1 as int]@[i]).elem(),
            u,
        )
}

/// Whether a transition of the target of `t` stands in for `t`.
fn implies_acc(
    states: &Vec<Conjuction>,
    trans: &Vec<Vec<SimpleTransition>>,
    t: &SimpleTransition,
    u: &PhiOp,
) -> (res: bool)
    requires
        trans@.len() == states@.len(),
        closed_below(trans@, states@.len() as int),
        t.target < states@.len(),
    ensures
        res == exists|i: int|
            0 <= i < trans@[t.target as int]@.len() && stands_in(
                states@,
                t.elem(),
                (#[trigger] trans@[t.target as int]@[i]).elem(),
                u@,
            ),
{
    let list = &trans[t.target];
    let mut i: usize = 0;
    while i < list.len()
        invariant
            i <= list@.len(),
            list@ == trans@[t.target as int]@,
            trans@.len() == states@.len(),
            targets_below(list@, states@.len() as int),
            t.target < states@.len(),
            forall|j: int| 0 <= j < i ==> !stands_in(states@, t.elem(), (#[trigger] list@[j]).elem(), u@),
        decreases list@.len() - i,
    {
        let other = &list[i];
        if !holds_member(states, other.target, u) && included(
            &states[other.target].0,
            &states[t.target].0,
        ) && included(&other.props.0, &t.props.0) {
            return true;
        }
        i = i + 1;
    }
    false
}

/// The family holds the transitions that fulfil `u`, each with the state
/// that it leaves.
pub open spec fn family_of(
    states: Seq<Conjuction>,
    trans: Seq<Vec<SimpleTransition>>,
    family: Seq<AccTransition>,
    u: Ltl,
) -> bool {
    forall|m: (usize, (Set<Ltl>, usize))| #[trigger]
        occurs(family, m) <==> m.0 < trans.len() && occurs(trans[m.0 as int]@, m.1) && fulfils(
            states,
            trans,
            m.1,
            u,
        )
}

/// Transition `m` is among the transitions of the states before `s` and
/// the first `i` transitions of state `s`, and fulfils `u`.
pub open spec fn found_upto(
    states: Seq<Conjuction>,
    trans: Seq<Vec<SimpleTransition>>,
    s: int,
    i: int,
    m: (usize, (Set<Ltl>, usize)),
    u: Ltl,
) -> bool {
    &&& fulfils(states, trans, m.1, u)
    &&& m.0 < trans.len()
    &&& (m.0 < s && occurs(trans[m.0 as int]@, m.1) || m.0 == s && occurs(trans[s]@.take(i), m.1))
}

/// The accepting transitions of until `u`: those that fulfil it.
pub fn accepting(states: &Vec<Conjuction>, trans: &Vec<Vec<SimpleTransition>>, u: &PhiOp) -> (res: Vec<
    AccTransition,
>)
    requires
        trans@.len() == states@.len(),
        closed_below(trans@, states@.len() as int),
    ensures
        family_below(res@, states@.len() as int),
        family_of(states@, trans@, res@, u@),
        distinct(res@),
{
    let mut res: Vec<AccTransition> = Vec::new();
    let mut s: usize = 0;
    while s < trans.len()
        invariant
            s <= trans@.len(),
            trans@.len() == states@.len(),
            closed_below(trans@, states@.len() as int),
            family_below(res@, states@.len() as int),
            distinct(res@),
            forall|m: (usize, (Set<Ltl>, usize))| #[trigger]
                occurs(res@, m) <==> found_upto(states@, trans@, s as int, 0, m, u@),
        decreases trans@.len() - s,
    {
        let list = &trans[s];
        let mut i: usize = 0;
        while i < list.len()
            invariant
                s < trans@.len(),
                i <= list@.len(),
                list@ == trans@[s as int]@,
                trans@.len() == states@.len(),
                closed_below(trans@, states@.len() as int),
                family_below(res@, states@.len() as int),
                distinct(res@),
                forall|m: (usize, (Set<Ltl>, usize))| #[trigger]
                    occurs(res@, m) <==> found_upto(states@, trans@, s as int, i as int, m, u@),
            decreases list@.len() - i,
        {
            let t = &list[i];
            assert(targets_below(trans@[s as int]@, states@.len() as int));
            let ok = !holds_member(states, t.target, u) || implies_acc(states, trans, t, u);
            let ghost before = res@;
            if ok {
                let item = AccTransition { source: s, transition: t.copy_elem() };
                put(&mut res, item);
                assert(family_below(res@, states@.len() as int)) by {
                    assert forall|k: int| 0 <= k < res@.len() implies (#[trigger] res@[k]).source
                        < states@.len() && res@[k].transition.target < states@.len() by {
                        if k < before.len() {
                            assert(before[k].source < states@.len());
                        }
                    }
                }
            }
            proof {
                let row = trans@[s as int]@;
                assert(row.take(i as int + 1) =~= row.take(i as int).push(row[i as int]));
                lemma_push_elems(row.take(i as int), row[i as int]);
                assert forall|m: (usize, (Set<Ltl>, usize))| #[trigger]
                    occurs(res@, m) <==> found_upto(states@, trans@, s as int, i as int + 1, m, u@) by {
                    assert(occurs(res@, m) <==> elems(res@).contains(m));
                    assert(occurs(before, m) <==> elems(before).contains(m));
                    assert(occurs(row.take(i as int + 1), m.1) <==> elems(row.take(i as int + 1)).contains(
                        m.1,
                    ));
                    assert(occurs(row.take(i as int), m.1) <==> elems(row.take(i as int)).contains(m.1));
                }
            }
            i = i + 1;
        }
        proof {
            let row = trans@[s as int]@;
            assert(row.take(i as int) =~= row);
            assert forall|m: (usize, (Set<Ltl>, usize))| #[trigger]
                occurs(res@, m) <==> found_upto(states@, trans@, s as int + 1, 0, m, u@) by {
                if s + 1 < trans@.len() {
                    assert(trans@[s as int + 1]@.take(0) =~= Seq::<SimpleTransition>::empty());
                    assert(!occurs(trans@[s as int + 1]@.take(0), m.1));
                }
            }
        }
        s = s + 1;
    }
    res
}

/// Accepting transition `b` makes `a` superfluous: it is another one,
/// leaves the same state, asks for no more, and leads to no more.
pub open spec fn dominated_by(
    states: Seq<Conjuction>,
    a: (usize, (Set<Ltl>, usize)),
    b: (usize, (Set<Ltl>, usize)),
) -> bool {
    &&& b != a
    &&& b.0 == a.0
    &&& b.1.0.subset_of(a.1.0)
    &&& states[b.1.1 as int]@.subset_of(states[a.1.1 as int]@)
}

/// Some member of the family makes `a` superfluous.
pub open spec fn beaten(states: Seq<Conjuction>, family: Seq<AccTransition>, a: (usize, (Set<Ltl>, usize))) -> bool {
    exists|i: int| 0 <= i < family.len() && dominated_by(states, a, (#[trigger] family[i]).elem())
}

/// Whether some member of the family makes `a` superfluous.
fn dominated(states: &Vec<Conjuction>, family: &Vec<AccTransition>, a: &AccTransition) -> (res: bool)
    requires
        family_below(family@, states@.len() as int),
        a.transition.target < states@.len(),
    ensures
        res == beaten(states@, family@, a.elem()),
{
    let mut i: usize = 0;
    while i < family.len()
        invariant
            i <= family@.len(),
            family_below(family@, states@.len() as int),
            a.transition.target < states@.len(),
            forall|j: int| 0 <= j < i ==> !dominated_by(states@, a.elem(), (#[trigger] family@[j]).elem()),
        decreases family@.len() - i,
    {
        let b = &family[i];
        if !b.eq_elem(a) && b.source == a.source && included(
            &b.transition.props.0,
            &a.transition.props.0,
        ) && included(&states[b.transition.target].0, &states[a.transition.target].0) {
            return true;
        }
        i = i + 1;
    }
    false
}

/// Transition `m` is a member of one of the first `k` families that
/// another member of that family makes superfluous.
pub open spec fn dropped(
    states: Seq<Conjuction>,
    families: Seq<AccFamily>,
    k: int,
    m: (usize, (Set<Ltl>, usize)),
) -> bool {
    exists|x: int|
        0 <= x < k && occurs((#[trigger] families[x]).transitions@, m) && beaten(
            states,
            families[x].transitions@,
            m,
        )
}

/// The families `left` and the transitions `pruned` are what is left of the
/// families `found` and of the transitions `trans` when each accepting
/// transition that another one of its family makes superfluous is removed,
/// from its family and from the transitions.
pub open spec fn pruning(
    states: Seq<Conjuction>,
    found: Seq<AccFamily>,
    trans: Seq<Vec<SimpleTransition>>,
    left: Seq<AccFamily>,
    pruned: Seq<Vec<SimpleTransition>>,
) -> bool {
    &&& left.len() == found.len()
    &&& pruned.len() == trans.len()
    &&& forall|k: int| 0 <= k < left.len() ==> (#[trigger] left[k]).phi@ == found[k].phi@
    &&& forall|k: int, m: (usize, (Set<Ltl>, usize))|
        0 <= k < left.len() ==> (#[trigger] occurs(left[k].transitions@, m) <==> occurs(
            found[k].transitions@,
            m,
        ) && !beaten(states, found[k].transitions@, m))
    &&& forall|s: int, t: (Set<Ltl>, usize)|
        0 <= s < pruned.len() ==> (#[trigger] occurs(pruned[s]@, t) <==> occurs(trans[s]@, t) && !dropped(
            states,
            found,
            found.len() as int,
            (s as usize, t),
        ))
}

/// What is left of one family, and of the transitions, when the
/// superfluous members of the family are removed.
fn prune_family(
    family: &Vec<AccTransition>,
    trans: &mut Vec<Vec<SimpleTransition>>,
    states: &Vec<Conjuction>,
) -> (left: Vec<AccTransition>)
    requires
        old(trans)@.len() == states@.len(),
        closed_below(old(trans)@, states@.len() as int),
        family_below(family@, states@.len() as int),
    ensures
        final(trans)@.len() == states@.len(),
        closed_below(final(trans)@, states@.len() as int),
        family_below(left@, states@.len() as int),
        forall|m: (usize, (Set<Ltl>, usize))| #[trigger]
            occurs(left@, m) <==> occurs(family@, m) && !beaten(states@, family@, m),
        forall|s: int, t: (Set<Ltl>, usize)|
            0 <= s < states@.len() ==> (#[trigger] occurs(final(trans)@[s]@, t) <==> occurs(
                old(trans)@[s]@,
                t,
            ) && !(occurs(family@, (s as usize, t)) && beaten(states@, family@, (s as usize, t)))),
{
    let n = states.len();
    let mut left: Vec<AccTransition> = Vec::new();
    let mut i: usize = 0;
    proof {
        assert(family@.take(0) =~= Seq::<AccTransition>::empty());
    }
    while i < family.len()
        invariant
            i <= family@.len(),
            n == states@.len(),
            trans@.len() == n,
            closed_below(trans@, n as int),
            family_below(family@, n as int),
            family_below(left@, n as int),
            forall|m: (usize, (Set<Ltl>, usize))| #[trigger]
                occurs(left@, m) <==> occurs(family@.take(i as int), m) && !beaten(states@, family@, m),
            forall|s: int, t: (Set<Ltl>, usize)|
                0 <= s < n ==> (#[trigger] occurs(trans@[s]@, t) <==> occurs(old(trans)@[s]@, t) && !(
                occurs(family@.take(i as int), (s as usize, t)) && beaten(
                    states@,
                    family@,
                    (s as usize, t),
                ))),
        decreases family@.len() - i,
    {
        let a = &family[i];
        let ghost before = left@;
        let ghost old_trans = trans@;
        let out = dominated(states, family, a);
        if out {
            let pruned = without(&trans[a.source], &a.transition);
            assert(targets_below(old_trans[a.source as int]@, n as int));
            assert(targets_below(pruned@, n as int)) by {
                assert forall|x: int| 0 <= x < pruned@.len() implies (#[trigger] pruned@[x]).target
                    < n by {
                    let m = pruned@[x].elem();
                    assert(occurs(old_trans[a.source as int]@, m));
                    let y = choose|y: int|
                        0 <= y < old_trans[a.source as int]@.len() && (
                        #[trigger] old_trans[a.source as int]@[y]).elem() == m;
                    assert(old_trans[a.source as int]@[y].target < n);
                }
            }
            trans.set(a.source, pruned);
            assert(closed_below(trans@, n as int)) by {
                assert forall|x: int| 0 <= x < trans@.len() implies targets_below(
                    (#[trigger] trans@[x])@,
                    n as int,
                ) by {
                    if x != a.source {
                        assert(targets_below(old_trans[x]@, n as int));
                    }
                }
            }
        } else {
            let c = a.copy_elem();
            proof {
                lemma_push_elems(before, c);
            }
            left.push(c);
            assert(family_below(left@, n as int)) by {
                assert forall|x: int| 0 <= x < left@.len() implies (#[trigger] left@[x]).source < n
                    && left@[x].transition.target < n by {
                    if x < before.len() {
                        assert(before[x].source < n);
                    }
                }
            }
        }
        proof {
            let fam = family@;
            assert(fam.take(i as int + 1) =~= fam.take(i as int).push(fam[i as int]));
            lemma_push_elems(fam.take(i as int), fam[i as int]);
            assert forall|m: (usize, (Set<Ltl>, usize))| #[trigger]
                occurs(left@, m) <==> occurs(fam.take(i as int + 1), m) && !beaten(states@, fam, m) by {
                assert(occurs(before, m) <==> elems(before).contains(m));
                assert(occurs(left@, m) <==> elems(left@).contains(m));
                assert(occurs(fam.take(i as int + 1), m) <==> elems(fam.take(i as int + 1)).contains(m));
                assert(occurs(fam.take(i as int), m) <==> elems(fam.take(i as int)).contains(m));
            }
            assert forall|s: int, t: (Set<Ltl>, usize)| 0 <= s < n implies (#[trigger] occurs(
                trans@[s]@,
                t,
            ) <==> occurs(old(trans)@[s]@, t) && !(occurs(fam.take(i as int + 1), (s as usize, t))
                && beaten(states@, fam, (s as usize, t)))) by {
                let m = (s as usize, t);
                assert(occurs(fam.take(i as int + 1), m) <==> elems(fam.take(i as int + 1)).contains(m));
                assert(occurs(fam.take(i as int), m) <==> elems(fam.take(i as int)).contains(m));
                assert(occurs(old_trans[s]@, t) <==> elems(old_trans[s]@).contains(t));
                assert(occurs(trans@[s]@, t) <==> elems(trans@[s]@).contains(t));
                if out && s == a.source {
                } else {
                    assert(trans@[s] == old_trans[s]);
                }
            }
        }
        i = i + 1;
    }
    proof {
        assert(family@.take(i as int) =~= family@);
    }
    left
}

/// Removes, within each family, the accepting transitions that another one
/// of the family makes superfluous, and removes them from the transitions
/// of their state as well.
pub fn prune_transitions(
    families: Vec<AccFamily>,
    trans: &mut Vec<Vec<SimpleTransition>>,
    states: &Vec<Conjuction>,
) -> (res: Vec<AccFamily>)
    requires
        old(trans)@.len() == states@.len(),
        closed_below(old(trans)@, states@.len() as int),
        families_below(families@, states@.len() as int),
    ensures
        final(trans)@.len() == states@.len(),
        closed_below(final(trans)@, states@.len() as int),
        families_below(res@, states@.len() as int),
        pruning(states@, families@, old(trans)@, res@, final(trans)@),
{
    let n = states.len();
    let mut res: Vec<AccFamily> = Vec::new();
    let mut k: usize = 0;
    while k < families.len()
        invariant
            k <= families@.len(),
            n == states@.len(),
            trans@.len() == n,
            closed_below(trans@, n as int),
            families_below(families@, n as int),
            families_below(res@, n as int),
            res@.len() == k,
            forall|x: int| 0 <= x < k ==> (#[trigger] res@[x]).phi@ == families@[x].phi@,
            forall|x: int, m: (usize, (Set<Ltl>, usize))|
                0 <= x < k ==> (#[trigger] occurs(res@[x].transitions@, m) <==> occurs(
                    families@[x].transitions@,
                    m,
                ) && !beaten(states@, families@[x].transitions@, m)),
            forall|s: int, t: (Set<Ltl>, usize)|
                0 <= s < n ==> (#[trigger] occurs(trans@[s]@, t) <==> occurs(old(trans)@[s]@, t)
                    && !dropped(states@, families@, k as int, (s as usize, t))),
        decreases families@.len() - k,
    {
        assert(family_below(families@[k as int].transitions@, n as int));
        let ghost old_trans = trans@;
        let left = prune_family(&families[k].transitions, trans, states);
        let item = AccFamily { phi: families[k].phi.duplicate(), transitions: left };
        let ghost before_res = res@;
        res.push(item);
        proof {
            assert(families_below(res@, n as int)) by {
                assert forall|x: int| 0 <= x < res@.len() implies family_below(
                    (#[trigger] res@[x]).transitions@,
                    n as int,
                ) by {
                    if x < before_res.len() {
                        assert(family_below(before_res[x].transitions@, n as int));
                    }
                }
            }
            assert forall|x: int, m: (usize, (Set<Ltl>, usize))| 0 <= x < k + 1 implies (
            #[trigger] occurs(res@[x].transitions@, m) <==> occurs(families@[x].transitions@, m)
                && !beaten(states@, families@[x].transitions@, m)) by {
                if x < k {
                    assert(res@[x] == before_res[x]);
                }
            }
            assert forall|x: int| 0 <= x < k + 1 implies (#[trigger] res@[x]).phi@ == families@[x].phi@ by {
                if x < k {
                    assert(res@[x] == before_res[x]);
                }
            }
            assert forall|s: int, t: (Set<Ltl>, usize)| 0 <= s < n implies (#[trigger] occurs(
                trans@[s]@,
                t,
            ) <==> occurs(old(trans)@[s]@, t) && !dropped(
                states@,
                families@,
                k as int + 1,
                (s as usize, t),
            )) by {
                let m = (s as usize, t);
                assert(occurs(old_trans[s]@, t) <==> occurs(old(trans)@[s]@, t) && !dropped(
                    states@,
                    families@,
                    k as int,
                    m,
                ));
                if dropped(states@, families@, k as int, m) {
                    let x = choose|x: int|
                        0 <= x < k && occurs((#[trigger] families@[x]).transitions@, m) && beaten(
                            states@,
                            families@[x].transitions@,
                            m,
                        );
                    assert(0 <= x < k + 1);
                }
                if dropped(states@, families@, k as int + 1, m) {
                    let x = choose|x: int|
                        0 <= x < k + 1 && occurs((#[trigger] families@[x]).transitions@, m) && beaten(
                            states@,
                            families@[x].transitions@,
                            m,
                        );
                    if x < k {
                        assert(dropped(states@, families@, k as int, m));
                    }
                }
                if occurs(families@[k as int].transitions@, m) && beaten(
                    states@,
                    families@[k as int].transitions@,
                    m,
                ) {
                    assert(dropped(states@, families@, k as int + 1, m));
                }
            }
        }
        k = k + 1;
    }
    res
}

/// The accepting transitions `family` under the numbers `ids`, without
/// those that leave a state that is not kept.
pub open spec fn renamed(
    family: Set<(usize, (Set<Ltl>, usize))>,
    kept: Seq<bool>,
    ids: Seq<usize>,
) -> Set<(usize, (Set<Ltl>, usize))> {
    Set::new(
        |m: (usize, (Set<Ltl>, usize))|
            exists|a: (usize, (Set<Ltl>, usize))| #[trigger]
                family.contains(a) && a.0 < kept.len() && a.0 < ids.len() && a.1.1 < ids.len()
                    && kept[a.0 as int] && m == (ids[a.0 as int], (a.1.0, ids[a.1.1 as int])),
    )
}

/// One more accepting transition adds its new form where its state is
/// kept, and nothing where it is not.
proof fn lemma_renamed_insert(
    family: Set<(usize, (Set<Ltl>, usize))>,
    a: (usize, (Set<Ltl>, usize)),
    kept: Seq<bool>,
    ids: Seq<usize>,
)
    requires
        a.0 < kept.len(),
        a.0 < ids.len(),
        a.1.1 < ids.len(),
    ensures
        kept[a.0 as int] ==> renamed(family.insert(a), kept, ids) == renamed(family, kept, ids).insert(
            (ids[a.0 as int], (a.1.0, ids[a.1.1 as int])),
        ),
        !kept[a.0 as int] ==> renamed(family.insert(a), kept, ids) == renamed(family, kept, ids),
{
    let l = renamed(family.insert(a), kept, ids);
    let r = renamed(family, kept, ids);
    let new = (ids[a.0 as int], (a.1.0, ids[a.1.1 as int]));
    assert forall|m: (usize, (Set<Ltl>, usize))| l.contains(m) <==> (r.contains(m) || (kept[a.0 as int]
        && m == new)) by {
        if l.contains(m) {
            let w = choose|w: (usize, (Set<Ltl>, usize))| #[trigger]
                family.insert(a).contains(w) && w.0 < kept.len() && w.0 < ids.len() && w.1.1 < ids.len()
                    && kept[w.0 as int] && m == (ids[w.0 as int], (w.1.0, ids[w.1.1 as int]));
            if w != a {
                assert(family.contains(w));
            }
        }
        if r.contains(m) {
            let w = choose|w: (usize, (Set<Ltl>, usize))| #[trigger]
                family.contains(w) && w.0 < kept.len() && w.0 < ids.len() && w.1.1 < ids.len()
                    && kept[w.0 as int] && m == (ids[w.0 as int], (w.1.0, ids[w.1.1 as int]));
            assert(family.insert(a).contains(w));
        }
        if kept[a.0 as int] && m == new {
            assert(family.insert(a).contains(a));
        }
    }
    if kept[a.0 as int] {
        assert(l =~= r.insert(new));
    } else {
        assert(l =~= r);
    }
}

/// The accepting transitions under the new numbers of the states. A
/// transition that leaves a state that was merged into another is left out.
pub fn rename_family(family: &Vec<AccTransition>, merging: &Merging, n: usize) -> (res: Vec<AccTransition>)
    requires
        family_below(family@, n as int),
        merging.ids@.len() == n,
        merging.kept@.len() == n,
        all_below(merging.ids@, merging.count as int),
    ensures
        family_below(res@, merging.count as int),
        elems(res@) == renamed(elems(family@), merging.kept@, merging.ids@),
        distinct(res@),
{
    let mut res: Vec<AccTransition> = Vec::new();
    let mut i: usize = 0;
    proof {
        assert(family@.take(0) =~= Seq::<AccTransition>::empty());
        assert(elems(res@) =~= renamed(elems(family@.take(0)), merging.kept@, merging.ids@));
    }
    while i < family.len()
        invariant
            i <= family@.len(),
            family_below(family@, n as int),
            merging.ids@.len() == n,
            merging.kept@.len() == n,
            all_below(merging.ids@, merging.count as int),
            family_below(res@, merging.count as int),
            elems(res@) == renamed(elems(family@.take(i as int)), merging.kept@, merging.ids@),
            distinct(res@),
        decreases family@.len() - i,
    {
        let a = &family[i];
        proof {
            let fam = family@;
            assert(fam.take(i as int + 1) =~= fam.take(i as int).push(fam[i as int]));
            lemma_push_elems(fam.take(i as int), fam[i as int]);
            lemma_renamed_insert(elems(fam.take(i as int)), fam[i as int].elem(), merging.kept@, merging.ids@);
        }
        if merging.kept[a.source] {
            let item = AccTransition {
                source: merging.ids[a.source],
                transition: SimpleTransition {
                    props: a.transition.props.copy_elem(),
                    target: merging.ids[a.transition.target],
                },
            };
            let ghost before = res@;
            put(&mut res, item);
            assert(family_below(res@, merging.count as int)) by {
                assert forall|x: int| 0 <= x < res@.len() implies (#[trigger] res@[x]).source
                    < merging.count && res@[x].transition.target < merging.count by {
                    if x < before.len() {
                        assert(before[x].source < merging.count);
                    }
                }
            }
        }
        i = i + 1;
    }
    proof {
        assert(family@.take(i as int) =~= family@);
    }
    res
}

/// The accepting transitions of each until.
fn all_families(states: &Vec<Conjuction>, trans: &Vec<Vec<SimpleTransition>>, finals: &Vec<PhiOp>) -> (res: Vec<
    AccFamily,
>)
    requires
        trans@.len() == states@.len(),
        closed_below(trans@, states@.len() as int),
    ensures
        res@.len() == finals@.len(),
        families_below(res@, states@.len() as int),
        forall|k: int|
            0 <= k < res@.len() ==> (#[trigger] res@[k]).phi@ == finals@[k]@ && family_of(
                states@,
                trans@,
                res@[k].transitions@,
                finals@[k]@,
            ),
{
    let n = states.len();
    let mut families: Vec<AccFamily> = Vec::new();
    let mut k: usize = 0;
    while k < finals.len()
        invariant
            k <= finals@.len(),
            n == states@.len(),
            trans@.len() == n,
            closed_below(trans@, n as int),
            families@.len() == k,
            families_below(families@, n as int),
            forall|x: int|
                0 <= x < k ==> (#[trigger] families@[x]).phi@ == finals@[x]@ && family_of(
                    states@,
                    trans@,
                    families@[x].transitions@,
                    finals@[x]@,
                ),
        decreases finals@.len() - k,
    {
        let u = &finals[k];
        let family = accepting(states, trans, u);
        let ghost before = families@;
        families.push(AccFamily { phi: u.duplicate(), transitions: family });
        proof {
            assert(families_below(families@, n as int)) by {
                assert forall|x: int| 0 <= x < families@.len() implies family_below(
                    (#[trigger] families@[x]).transitions@,
                    n as int,
                ) by {
                    if x < before.len() {
                        assert(family_below(before[x].transitions@, n as int));
                    }
                }
            }
            assert forall|x: int| 0 <= x < k + 1 implies (#[trigger] families@[x]).phi@ == finals@[x]@
                && family_of(states@, trans@, families@[x].transitions@, finals@[x]@) by {
                if x < k {
                    assert(families@[x] == before[x]);
                }
            }
        }
        k = k + 1;
    }
    families
}

/// A mark for each of `n` states, none of them set.
fn no_marks(n: usize) -> (marks: Vec<bool>)
    ensures
        marks@ == Seq::new(n as nat, |i: int| false),
{
    let mut marks: Vec<bool> = Vec::new();
    let mut i: usize = 0;
    while i < n
        invariant
            i <= n,
            marks@.len() == i,
            forall|x: int| 0 <= x < i ==> !(#[trigger] marks@[x]),
        decreases n - i,
    {
        marks.push(false);
        i = i + 1;
    }
    assert(marks@ =~= Seq::new(n as nat, |i: int| false));
    marks
}

/// The families under the new numbers of the states.
fn rename_families(families: &Vec<AccFamily>, merging: &Merging, n: usize) -> (res: Vec<AccFamily>)
    requires
        families_below(families@, n as int),
        merging.ids@.len() == n,
        merging.kept@.len() == n,
        all_below(merging.ids@, merging.count as int),
    ensures
        res@.len() == families@.len(),
        families_below(res@, merging.count as int),
        forall|k: int|
            0 <= k < res@.len() ==> (#[trigger] res@[k]).phi@ == families@[k].phi@ && elems(
                res@[k].transitions@,
            ) == renamed(elems(families@[k].transitions@), merging.kept@, merging.ids@),
{
    let mut res: Vec<AccFamily> = Vec::new();
    let mut k: usize = 0;
    while k < families.len()
        invariant
            k <= families@.len(),
            families_below(families@, n as int),
            merging.ids@.len() == n,
            merging.kept@.len() == n,
            all_below(merging.ids@, merging.count as int),
            res@.len() == k,
            families_below(res@, merging.count as int),
            forall|x: int|
                0 <= x < k ==> (#[trigger] res@[x]).phi@ == families@[x].phi@ && elems(
                    res@[x].transitions@,
                ) == renamed(elems(families@[x].transitions@), merging.kept@, merging.ids@),
        decreases families@.len() - k,
    {
        assert(family_below(families@[k as int].transitions@, n as int));
        let renamed_family = rename_family(&families[k].transitions, merging, n);
        let ghost before = res@;
        res.push(AccFamily { phi: families[k].phi.duplicate(), transitions: renamed_family });
        proof {
            assert(families_below(res@, merging.count as int)) by {
                assert forall|x: int| 0 <= x < res@.len() implies family_below(
                    (#[trigger] res@[x]).transitions@,
                    merging.count as int,
                ) by {
                    if x < before.len() {
                        assert(family_below(before[x].transitions@, merging.count as int));
                    }
                }
            }
            assert forall|x: int| 0 <= x < k + 1 implies (#[trigger] res@[x]).phi@ == families@[x].phi@
                && elems(res@[x].transitions@) == renamed(
                elems(families@[x].transitions@),
                merging.kept@,
                merging.ids@,
            ) by {
                if x < k {
                    assert(res@[x] == before[x]);
                }
            }
        }
        k = k + 1;
    }
    res
}

/// What is built on the way from the first automaton to the second.
pub struct Draft {
    /// The conjunctions that are reached.
    pub states: Seq<Conjuction>,
    /// The transitions that leave each of them.
    pub first: Seq<Vec<SimpleTransition>>,
    /// The places of the initial conjunctions.
    pub start: Seq<usize>,
    /// The accepting transitions of each until.
    pub found: Seq<AccFamily>,
    /// What is left of them when the superfluous ones are removed.
    pub left: Seq<AccFamily>,
    /// What is then left of the transitions.
    pub pruned: Seq<Vec<SimpleTransition>>,
    /// How the states are merged and numbered.
    pub merging: Merging,
}

impl GBA {
    /// The automaton is built from the first automaton by way of `d`: the
    /// conjunctions that are reached from the initial ones are the states;
    /// each until has the family of the transitions that fulfil it;
    /// superfluous accepting transitions are removed; the states are merged
    /// and numbered; and the automaton holds the transitions, the initial
    /// states and the families under the new numbers.
    pub open spec fn built_from(&self, vwaa: &VWAA, d: Draft) -> bool {
        let ids = d.merging.ids@;
        &&& expansion(vwaa.initial@, d.states, d.first, d.start)
        &&& d.found.len() == vwaa.final_states@.len()
        &&& forall|k: int|
            0 <= k < d.found.len() ==> (#[trigger] d.found[k]).phi@ == vwaa.final_states@[k]@
                && family_of(d.states, d.first, d.found[k].transitions@, vwaa.final_states@[k]@)
        &&& pruning(d.states, d.found, d.first, d.left, d.pruned)
        &&& d.merging.merges(d.pruned, Seq::new(d.states.len(), |i: int| false))
        &&& self.trans_f@.len() == d.merging.count
        &&& forall|c: int|
            0 <= c < self.trans_f@.len() ==> elems((#[trigger] self.trans_f@[c])@) == led(
                elems(d.pruned[d.merging.origin@[c] as int]@),
                ids,
            )
        &&& elems(self.initial@) == numbers_of(elems(d.start), ids)
        &&& self.acc_transitions@.len() == d.left.len()
        &&& forall|k: int|
            0 <= k < d.left.len() ==> (#[trigger] self.acc_transitions@[k]).phi@ == d.left[k].phi@
                && elems(self.acc_transitions@[k].transitions@) == renamed(
                elems(d.left[k].transitions@),
                d.merging.kept@,
                ids,
            )
    }

    /// The automaton is the generalised Büchi automaton of the very weak
    /// alternating automaton.
    pub open spec fn is_gba_of(&self, vwaa: &VWAA) -> bool {
        exists|d: Draft| self.built_from(vwaa, d)
    }
}

/// The generalised Büchi automaton of a very weak alternating automaton.
/// Accepting transitions that another one makes superfluous are removed,
/// states with the same transitions are merged, and the states are
/// numbered.
pub fn to_gba(vwaa: &VWAA) -> (res: GBA)
    ensures
        res.wf(),
        res.is_gba_of(vwaa),
        res.acc_transitions@.len() == vwaa.final_states@.len(),
        forall|k: int|
            0 <= k < res.acc_transitions@.len() ==> (#[trigger] res.acc_transitions@[k]).phi@
                == vwaa.final_states@[k]@,
{
    let (states, mut trans, start) = expand(&vwaa.initial);
    let n = states.len();
    let ghost first = trans@;
    let found = all_families(&states, &trans, &vwaa.final_states);
    let ghost found_view = found@;
    let left = prune_transitions(found, &mut trans, &states);
    let marks = no_marks(n);
    let merging = merge_states(&trans, &marks);
    let trans_f = renumber(&trans, &merging);
    let acc_transitions = rename_families(&left, &merging, n);
    let initial = renumber_list(&start, &merging.ids);
    let ghost d = Draft {
        states: states@,
        first,
        start: start@,
        found: found_view,
        left: left@,
        pruned: trans@,
        merging,
    };
    let res = GBA { initial, trans_f, acc_transitions };
    proof {
        assert(all_below(res.initial@, res.size())) by {
            assert forall|i: int| 0 <= i < res.initial@.len() implies (#[trigger] res.initial@[i])
                < res.size() by {
                assert(occurs(merging.ids@, res.initial@[i]));
                let y = choose|y: int|
                    0 <= y < merging.ids@.len() && (#[trigger] merging.ids@[y]).elem() == res.initial@[i];
                assert(merging.ids@[y] < merging.count);
            }
        }
        assert(res.built_from(vwaa, d));
        assert forall|k: int| 0 <= k < res.acc_transitions@.len() implies (
        #[trigger] res.acc_transitions@[k]).phi@ == vwaa.final_states@[k]@ by {
            assert(left@[k].phi@ == found_view[k].phi@);
        }
    }
    res
}

} // verus!
