//! Value iteration on a decision process: the one-step operator, a sweep
//! over the undecided states, and the repetition of sweeps until the values
//! move by less than a threshold.
//!
//! Values are fixed-point numbers in parts per billion. A sweep updates the
//! undecided states in the order of their indices and uses each new value at
//! once. Starting from values that lie below their own one-step values, no
//! value ever falls, and all stay at most one: this is why the repetition
//! ends.

use crate::comp::ONE;
use crate::mdp::{Mdp, MdpView};
use vstd::prelude::*;

verus! {

/// Every value is at most one.
pub open spec fn bounded(v: Seq<u64>) -> bool {
    forall|i: int| 0 <= i < v.len() ==> #[trigger] v[i] <= ONE
}

/// `v` and `w` are vectors over the nodes of `g`, and `v` lies below `w`.
pub open spec fn pointwise_le(v: Seq<u64>, w: Seq<u64>) -> bool {
    v.len() == w.len() && forall|i: int| 0 <= i < v.len() ==> #[trigger] v[i] <= w[i]
}

/// The sum, over those among the first `k` edges that leave action `a`, of
/// the edge's weight times the value of its target.
pub open spec fn weighted(g: MdpView, v: Seq<u64>, a: int, k: int) -> int
    decreases k,
{
    if k <= 0 {
        0
    } else {
        weighted(g, v, a, k - 1) + if g.edges[k - 1].source == a {
            g.edges[k - 1].weight * v[g.edges[k - 1].target as int]
        } else {
            0
        }
    }
}

/// The value of action `a`: the weighted sum of the values of its outcomes,
/// rounded down to a whole part per billion and capped at one.
pub open spec fn action_prob(g: MdpView, v: Seq<u64>, a: int) -> int {
    let p = weighted(g, v, a, g.edges.len() as int) / (ONE as int);
    if p > ONE {
        ONE as int
    } else {
        p
    }
}

/// The larger of two values where the bound is an upper one, else the
/// smaller.
pub open spec fn pick(upper: bool, x: int, y: int) -> int {
    if upper {
        if x >= y {
            x
        } else {
            y
        }
    } else {
        if x <= y {
            x
        } else {
            y
        }
    }
}

/// The best value among the actions that the first `k` edges offer to state
/// `s`; `None` where they offer none.
pub open spec fn best(g: MdpView, v: Seq<u64>, s: int, upper: bool, k: int) -> Option<int>
    decreases k,
{
    if k <= 0 {
        None
    } else {
        let prev = best(g, v, s, upper, k - 1);
        if g.edges[k - 1].source == s {
            let p = action_prob(g, v, g.edges[k - 1].target as int);
            match prev {
                None => Some(p),
                Some(q) => Some(pick(upper, q, p)),
            }
        } else {
            prev
        }
    }
}

/// The one-step value of state `s`: the largest value of its actions for an
/// upper bound, the smallest for a lower bound, and zero without actions.
pub open spec fn bellman(g: MdpView, v: Seq<u64>, s: int, upper: bool) -> int {
    match best(g, v, s, upper, g.edges.len() as int) {
        Some(p) => p,
        None => 0,
    }
}

/// The values after the undecided nodes below `i` were updated in turn.
pub open spec fn sweep_upto(g: MdpView, undecided: Seq<bool>, upper: bool, v: Seq<u64>, i: int) -> Seq<
    u64,
>
    decreases i,
{
    if i <= 0 {
        v
    } else {
        let p = sweep_upto(g, undecided, upper, v, i - 1);
        if undecided[i - 1] {
            p.update(i - 1, bellman(g, p, i - 1, upper) as u64)
        } else {
            p
        }
    }
}

/// One sweep over all nodes.
pub open spec fn sweep(g: MdpView, undecided: Seq<bool>, upper: bool, v: Seq<u64>) -> Seq<u64> {
    sweep_upto(g, undecided, upper, v, v.len() as int)
}

/// `k` sweeps, one after the other.
pub open spec fn sweeps(g: MdpView, undecided: Seq<bool>, upper: bool, v: Seq<u64>, k: nat) -> Seq<
    u64,
>
    decreases k,
{
    if k == 0 {
        v
    } else {
        sweep(g, undecided, upper, sweeps(g, undecided, upper, v, (k - 1) as nat))
    }
}

/// The distance of two values.
pub open spec fn dist(x: u64, y: u64) -> int {
    if x >= y {
        x - y
    } else {
        y - x
    }
}

/// The largest distance between `v` and `w` at a node below `i`.
pub open spec fn change_upto(v: Seq<u64>, w: Seq<u64>, i: int) -> int
    decreases i,
{
    if i <= 0 {
        0
    } else {
        let c = change_upto(v, w, i - 1);
        let d = dist(v[i - 1], w[i - 1]);
        if d > c {
            d
        } else {
            c
        }
    }
}

/// The largest distance between `v` and `w` at any node.
pub open spec fn change(v: Seq<u64>, w: Seq<u64>) -> int {
    change_upto(v, w, v.len() as int)
}

/// Sweep number `k` moved some value by `eps` or more.
pub open spec fn moved(g: MdpView, undecided: Seq<bool>, upper: bool, v: Seq<u64>, eps: int, k: nat) -> bool {
    change(
        sweeps(g, undecided, upper, v, (k - 1) as nat),
        sweeps(g, undecided, upper, v, k),
    ) >= eps
}

/// Sweep number `k` is the first that moves every value by less than `eps`.
pub open spec fn settles_at(g: MdpView, undecided: Seq<bool>, upper: bool, v: Seq<u64>, eps: int, k: nat) -> bool {
    &&& k >= 1
    &&& !moved(g, undecided, upper, v, eps, k)
    &&& forall|j: nat| 1 <= j < k ==> #[trigger] moved(g, undecided, upper, v, eps, j)
}

/// The number of sweeps that the iteration makes.
pub open spec fn rounds(g: MdpView, undecided: Seq<bool>, upper: bool, v: Seq<u64>, eps: int) -> nat {
    choose|k: nat| settles_at(g, undecided, upper, v, eps, k)
}

/// The values at which the iteration stops.
pub open spec fn settled(g: MdpView, undecided: Seq<bool>, upper: bool, v: Seq<u64>, eps: int) -> Seq<u64> {
    sweeps(g, undecided, upper, v, rounds(g, undecided, upper, v, eps))
}

/// Each undecided node has a value at most its one-step value.
pub open spec fn rising(g: MdpView, undecided: Seq<bool>, upper: bool, v: Seq<u64>) -> bool {
    forall|s: int|
        0 <= s < v.len() && undecided[s] ==> v[s] <= #[trigger] bellman(g, v, s, upper)
}

/// The sum of the first `i` values.
pub open spec fn total(v: Seq<u64>, i: int) -> int
    decreases i,
{
    if i <= 0 {
        0
    } else {
        total(v, i - 1) + v[i - 1]
    }
}

pub proof fn lemma_weighted_bound(g: MdpView, v: Seq<u64>, a: int, k: int)
    requires
        g.wf(),
        v.len() == g.states.len(),
        bounded(v),
        0 <= k <= g.edges.len(),
    ensures
        0 <= weighted(g, v, a, k) <= k * (ONE * ONE),
    decreases k,
{
    if k > 0 {
        lemma_weighted_bound(g, v, a, k - 1);
        let e = g.edges[k - 1];
        assert(g.edge_ok(e));
        let w = e.weight as int;
        let x = v[e.target as int] as int;
        assert(0 <= w * x <= ONE * ONE) by (nonlinear_arith)
            requires
                0 <= w <= ONE,
                0 <= x <= ONE,
        ;
        assert((k - 1) * (ONE * ONE) + ONE * ONE == k * (ONE * ONE)) by (nonlinear_arith);
    }
}

pub proof fn lemma_weighted_mono(g: MdpView, v: Seq<u64>, w: Seq<u64>, a: int, k: int)
    requires
        g.wf(),
        v.len() == g.states.len(),
        pointwise_le(v, w),
        0 <= k <= g.edges.len(),
    ensures
        weighted(g, v, a, k) <= weighted(g, w, a, k),
    decreases k,
{
    if k > 0 {
        lemma_weighted_mono(g, v, w, a, k - 1);
        let e = g.edges[k - 1];
        assert(g.edge_ok(e));
        let c = e.weight as int;
        let x = v[e.target as int] as int;
        let y = w[e.target as int] as int;
        assert(c * x <= c * y) by (nonlinear_arith)
            requires
                0 <= c,
                x <= y,
        ;
    }
}

pub proof fn lemma_action_prob_range(g: MdpView, v: Seq<u64>, a: int)
    requires
        g.wf(),
        v.len() == g.states.len(),
        bounded(v),
    ensures
        0 <= action_prob(g, v, a) <= ONE,
{
    lemma_weighted_bound(g, v, a, g.edges.len() as int);
}

pub proof fn lemma_action_prob_mono(g: MdpView, v: Seq<u64>, w: Seq<u64>, a: int)
    requires
        g.wf(),
        v.len() == g.states.len(),
        pointwise_le(v, w),
        bounded(w),
    ensures
        action_prob(g, v, a) <= action_prob(g, w, a),
{
    lemma_weighted_mono(g, v, w, a, g.edges.len() as int);
    let x = weighted(g, v, a, g.edges.len() as int);
    let y = weighted(g, w, a, g.edges.len() as int);
    assert(x / (ONE as int) <= y / (ONE as int)) by (nonlinear_arith)
        requires
            x <= y,
    ;
}

pub proof fn lemma_best_range(g: MdpView, v: Seq<u64>, s: int, upper: bool, k: int)
    requires
        g.wf(),
        v.len() == g.states.len(),
        bounded(v),
        0 <= k <= g.edges.len(),
    ensures
        best(g, v, s, upper, k) matches Some(p) ==> 0 <= p <= ONE,
    decreases k,
{
    if k > 0 {
        lemma_best_range(g, v, s, upper, k - 1);
        lemma_action_prob_range(g, v, g.edges[k - 1].target as int);
    }
}

pub proof fn lemma_best_mono(g: MdpView, v: Seq<u64>, w: Seq<u64>, s: int, upper: bool, k: int)
    requires
        g.wf(),
        v.len() == g.states.len(),
        pointwise_le(v, w),
        bounded(w),
        0 <= k <= g.edges.len(),
    ensures
        best(g, v, s, upper, k) is None <==> best(g, w, s, upper, k) is None,
        best(g, v, s, upper, k) matches Some(p) ==> p <= best(g, w, s, upper, k).unwrap(),
    decreases k,
{
    if k > 0 {
        lemma_best_mono(g, v, w, s, upper, k - 1);
        lemma_action_prob_mono(g, v, w, g.edges[k - 1].target as int);
    }
}

pub proof fn lemma_bellman_range(g: MdpView, v: Seq<u64>, s: int, upper: bool)
    requires
        g.wf(),
        v.len() == g.states.len(),
        bounded(v),
    ensures
        0 <= bellman(g, v, s, upper) <= ONE,
{
    lemma_best_range(g, v, s, upper, g.edges.len() as int);
}

pub proof fn lemma_bellman_mono(g: MdpView, v: Seq<u64>, w: Seq<u64>, s: int, upper: bool)
    requires
        g.wf(),
        v.len() == g.states.len(),
        pointwise_le(v, w),
        bounded(w),
    ensures
        bellman(g, v, s, upper) <= bellman(g, w, s, upper),
{
    lemma_best_mono(g, v, w, s, upper, g.edges.len() as int);
}

/// Updating one undecided node to its one-step value keeps the values
/// bounded and rising, and lets none fall.
pub proof fn lemma_update_rising(g: MdpView, undecided: Seq<bool>, upper: bool, v: Seq<u64>, s: int)
    requires
        g.wf(),
        v.len() == g.states.len(),
        undecided.len() == v.len(),
        bounded(v),
        rising(g, undecided, upper, v),
        0 <= s < v.len(),
        undecided[s],
    ensures
        0 <= bellman(g, v, s, upper) <= ONE,
        bounded(v.update(s, bellman(g, v, s, upper) as u64)),
        rising(g, undecided, upper, v.update(s, bellman(g, v, s, upper) as u64)),
        pointwise_le(v, v.update(s, bellman(g, v, s, upper) as u64)),
{
    lemma_bellman_range(g, v, s, upper);
    let w = v.update(s, bellman(g, v, s, upper) as u64);
    assert(v[s] <= bellman(g, v, s, upper));
    assert(pointwise_le(v, w));
    assert(bounded(w));
    assert forall|t: int| 0 <= t < w.len() && undecided[t] implies w[t] <= #[trigger] bellman(
        g,
        w,
        t,
        upper,
    ) by {
        lemma_bellman_mono(g, v, w, t, upper);
        assert(v[t] <= bellman(g, v, t, upper));
    }
}

/// A sweep keeps values bounded and rising and lets none fall.
pub proof fn lemma_sweep_upto_rising(g: MdpView, undecided: Seq<bool>, upper: bool, v: Seq<u64>, i: int)
    requires
        g.wf(),
        v.len() == g.states.len(),
        undecided.len() == v.len(),
        bounded(v),
        rising(g, undecided, upper, v),
        0 <= i <= v.len(),
    ensures
        sweep_upto(g, undecided, upper, v, i).len() == v.len(),
        bounded(sweep_upto(g, undecided, upper, v, i)),
        rising(g, undecided, upper, sweep_upto(g, undecided, upper, v, i)),
        pointwise_le(v, sweep_upto(g, undecided, upper, v, i)),
        forall|j: int| i <= j < v.len() ==> sweep_upto(g, undecided, upper, v, i)[j] == v[j],
    decreases i,
{
    if i > 0 {
        lemma_sweep_upto_rising(g, undecided, upper, v, i - 1);
        let p = sweep_upto(g, undecided, upper, v, i - 1);
        if undecided[i - 1] {
            lemma_update_rising(g, undecided, upper, p, i - 1);
        }
    }
}

/// The change over a prefix looks at that prefix only.
pub proof fn lemma_change_prefix(v: Seq<u64>, w: Seq<u64>, x: Seq<u64>, i: int)
    requires
        0 <= i <= v.len(),
        w.len() == v.len(),
        x.len() == v.len(),
        forall|j: int| 0 <= j < i ==> w[j] == x[j],
    ensures
        change_upto(v, w, i) == change_upto(v, x, i),
    decreases i,
{
    if i > 0 {
        lemma_change_prefix(v, w, x, i - 1);
    }
}

pub proof fn lemma_total_bound(v: Seq<u64>, i: int)
    requires
        bounded(v),
        0 <= i <= v.len(),
    ensures
        0 <= total(v, i) <= i * ONE,
    decreases i,
{
    if i > 0 {
        lemma_total_bound(v, i - 1);
        assert((i - 1) * ONE + ONE == i * ONE) by (nonlinear_arith);
    }
}

/// Where no value falls, the sum grows by at least the largest change.
pub proof fn lemma_total_grows(v: Seq<u64>, w: Seq<u64>, i: int)
    requires
        pointwise_le(v, w),
        0 <= i <= v.len(),
    ensures
        total(w, i) >= total(v, i) + change_upto(v, w, i),
        change_upto(v, w, i) >= 0,
    decreases i,
{
    if i > 0 {
        lemma_total_grows(v, w, i - 1);
    }
}

/// There is at most one first sweep that moves every value by less than
/// `eps`.
pub proof fn lemma_settles_unique(g: MdpView, undecided: Seq<bool>, upper: bool, v: Seq<u64>, eps: int, k: nat)
    requires
        settles_at(g, undecided, upper, v, eps, k),
    ensures
        rounds(g, undecided, upper, v, eps) == k,
        settled(g, undecided, upper, v, eps) == sweeps(g, undecided, upper, v, k),
{
    let r = rounds(g, undecided, upper, v, eps);
    assert(settles_at(g, undecided, upper, v, eps, r));
    if r < k {
        assert(moved(g, undecided, upper, v, eps, r));
    }
    if k < r {
        assert(moved(g, undecided, upper, v, eps, k));
    }
}

/// The value of action `a` under the values `v`.
pub fn action_value(mdp: &Mdp, v: &Vec<u64>, a: usize) -> (p: u64)
    requires
        mdp.wf(),
        v@.len() == mdp@.states.len(),
        bounded(v@),
    ensures
        p == action_prob(mdp@, v@, a as int),
        p <= ONE,
{
    let m = mdp.edge_count();
    let mut acc: u128 = 0;
    let mut e: usize = 0;
    while e < m
        invariant
            mdp.wf(),
            v@.len() == mdp@.states.len(),
            bounded(v@),
            m == mdp@.edges.len(),
            e <= m,
            acc == weighted(mdp@, v@, a as int, e as int),
        decreases m - e,
    {
        let ed = mdp.edge(e);
        proof {
            lemma_weighted_bound(mdp@, v@, a as int, e as int);
            lemma_weighted_bound(mdp@, v@, a as int, e as int + 1);
            assert((e + 1) * (ONE * ONE) <= 0x1_0000_0000_0000_0000 * (ONE * ONE))
                by (nonlinear_arith)
                requires
                    e + 1 <= 0x1_0000_0000_0000_0000,
            ;
        }
        if ed.source == a {
            let x = v[ed.target];
            assert((ed.weight as int) * (x as int) <= ONE * ONE) by (nonlinear_arith)
                requires
                    0 <= ed.weight <= ONE,
                    0 <= x <= ONE,
            ;
            acc = acc + (ed.weight as u128) * (x as u128);
        }
        e = e + 1;
    }
    let p = acc / (ONE as u128);
    if p > ONE as u128 {
        ONE
    } else {
        p as u64
    }
}

/// The one-step value of state `s` under the values `v`.
pub fn state_value(mdp: &Mdp, v: &Vec<u64>, s: usize, upper: bool) -> (p: u64)
    requires
        mdp.wf(),
        v@.len() == mdp@.states.len(),
        bounded(v@),
    ensures
        p == bellman(mdp@, v@, s as int, upper),
        p <= ONE,
{
    let m = mdp.edge_count();
    let mut found: Option<u64> = None;
    let mut e: usize = 0;
    while e < m
        invariant
            mdp.wf(),
            v@.len() == mdp@.states.len(),
            bounded(v@),
            m == mdp@.edges.len(),
            e <= m,
            found is None <==> best(mdp@, v@, s as int, upper, e as int) is None,
            found matches Some(q) ==> q <= ONE && best(mdp@, v@, s as int, upper, e as int)
                == Some(q as int),
        decreases m - e,
    {
        let ed = mdp.edge(e);
        if ed.source == s {
            let p = action_value(mdp, v, ed.target);
            found =
            match found {
                None => Some(p),
                Some(q) => if upper {
                    if q >= p {
                        Some(q)
                    } else {
                        Some(p)
                    }
                } else {
                    if q <= p {
                        Some(q)
                    } else {
                        Some(p)
                    }
                },
            };
        }
        e = e + 1;
    }
    match found {
        Some(p) => p,
        None => 0,
    }
}

/// One sweep: each undecided node, in the order of the indices, gets its
/// one-step value. Returns the largest change of a value.
pub fn sweep_values(mdp: &Mdp, undecided: &Vec<bool>, upper: bool, v: &mut Vec<u64>) -> (c: u64)
    requires
        mdp.wf(),
        old(v)@.len() == mdp@.states.len(),
        undecided@.len() == old(v)@.len(),
        bounded(old(v)@),
    ensures
        final(v)@ == sweep(mdp@, undecided@, upper, old(v)@),
        bounded(final(v)@),
        c == change(old(v)@, final(v)@),
{
    let n = v.len();
    let mut c: u64 = 0;
    let mut i: usize = 0;
    while i < n
        invariant
            mdp.wf(),
            n == mdp@.states.len(),
            v@.len() == n,
            old(v)@.len() == n,
            undecided@.len() == n,
            i <= n,
            bounded(v@),
            v@ == sweep_upto(mdp@, undecided@, upper, old(v)@, i as int),
            c == change_upto(old(v)@, v@, i as int),
            forall|j: int| i <= j < n ==> v@[j] == old(v)@[j],
        decreases n - i,
    {
        let ghost before = v@;
        if undecided[i] {
            let p = state_value(mdp, v, i, upper);
            let q = v[i];
            let d = if p >= q {
                p - q
            } else {
                q - p
            };
            v.set(i, p);
            if d > c {
                c = d;
            }
        }
        proof {
            lemma_change_prefix(old(v)@, before, v@, i as int);
        }
        i = i + 1;
    }
    c
}

/// Repeats sweeps until one moves every value by less than `eps`.
pub fn settle(mdp: &Mdp, undecided: &Vec<bool>, upper: bool, v: &mut Vec<u64>, eps: u64)
    requires
        mdp.wf(),
        old(v)@.len() == mdp@.states.len(),
        undecided@.len() == old(v)@.len(),
        bounded(old(v)@),
        rising(mdp@, undecided@, upper, old(v)@),
        eps > 0,
    ensures
        final(v)@ == settled(mdp@, undecided@, upper, old(v)@, eps as int),
        settles_at(
            mdp@,
            undecided@,
            upper,
            old(v)@,
            eps as int,
            rounds(mdp@, undecided@, upper, old(v)@, eps as int),
        ),
        final(v)@.len() == old(v)@.len(),
        bounded(final(v)@),
{
    let ghost n = v@.len() as int;
    let ghost mut k: nat = 0;
    loop
        invariant_except_break
            forall|j: nat|
                1 <= j <= k ==> #[trigger] moved(mdp@, undecided@, upper, old(v)@, eps as int, j),
        invariant
            mdp.wf(),
            n == mdp@.states.len(),
            v@.len() == n,
            undecided@.len() == n,
            bounded(v@),
            rising(mdp@, undecided@, upper, v@),
            eps > 0,
            v@ == sweeps(mdp@, undecided@, upper, old(v)@, k),
        ensures
            v@.len() == n,
            bounded(v@),
            settles_at(mdp@, undecided@, upper, old(v)@, eps as int, k),
            v@ == sweeps(mdp@, undecided@, upper, old(v)@, k),
        decreases n * ONE - total(v@, n),
    {
        let ghost before = v@;
        let c = sweep_values(mdp, undecided, upper, v);
        proof {
            lemma_sweep_upto_rising(mdp@, undecided@, upper, before, n);
            lemma_total_grows(before, v@, n);
            lemma_total_bound(v@, n);
            k = k + 1;
        }
        if c < eps {
            break ;
        }
    }
    proof {
        lemma_settles_unique(mdp@, undecided@, upper, old(v)@, eps as int, k);
    }
}

/// A choice of actions: for each node, the number of an edge. The choice
/// is taken at a state where the edge leaves that state.
pub open spec fn chooses(g: MdpView, choice: Seq<int>, s: int) -> bool {
    0 <= s < choice.len() && 0 <= choice[s] < g.edges.len() && g.edges[choice[s]].source == s
}

/// The one-step value of state `s` under a choice of actions: the value of
/// the action that is chosen; where none is chosen, the value that the state
/// has.
pub open spec fn chosen_value(g: MdpView, v: Seq<u64>, s: int, choice: Seq<int>) -> int {
    if chooses(g, choice, s) {
        action_prob(g, v, g.edges[choice[s]].target as int)
    } else {
        v[s] as int
    }
}

/// The values after the undecided nodes below `i` were updated in turn
/// under a choice of actions.
pub open spec fn sweep_under_upto(g: MdpView, undecided: Seq<bool>, choice: Seq<int>, v: Seq<u64>, i: int) -> Seq<
    u64,
>
    decreases i,
{
    if i <= 0 {
        v
    } else {
        let p = sweep_under_upto(g, undecided, choice, v, i - 1);
        if undecided[i - 1] {
            p.update(i - 1, chosen_value(g, p, i - 1, choice) as u64)
        } else {
            p
        }
    }
}

/// `k` sweeps under a choice of actions, one after the other.
pub open spec fn sweeps_under(g: MdpView, undecided: Seq<bool>, choice: Seq<int>, v: Seq<u64>, k: nat) -> Seq<
    u64,
>
    decreases k,
{
    if k == 0 {
        v
    } else {
        let p = sweeps_under(g, undecided, choice, v, (k - 1) as nat);
        sweep_under_upto(g, undecided, choice, p, p.len() as int)
    }
}

/// The best value among the actions lies on its side of the value of each
/// action: above for the largest, below for the smallest.
pub proof fn lemma_best_bounds(g: MdpView, v: Seq<u64>, s: int, k: int, e: int)
    requires
        0 <= e < k <= g.edges.len(),
        g.edges[e].source == s,
    ensures
        best(g, v, s, true, k) is Some,
        best(g, v, s, false, k) is Some,
        best(g, v, s, false, k).unwrap() <= action_prob(g, v, g.edges[e].target as int),
        action_prob(g, v, g.edges[e].target as int) <= best(g, v, s, true, k).unwrap(),
    decreases k,
{
    if e < k - 1 {
        lemma_best_bounds(g, v, s, k - 1, e);
    }
}

/// Every undecided state has a choice.
pub open spec fn total_choice(g: MdpView, undecided: Seq<bool>, choice: Seq<int>) -> bool {
    choice.len() == undecided.len() && forall|s: int|
        0 <= s < undecided.len() && undecided[s] ==> #[trigger] chooses(g, choice, s)
}

/// One update keeps the values under a choice between the smallest and the
/// largest values.
proof fn lemma_update_between(
    g: MdpView,
    undecided: Seq<bool>,
    choice: Seq<int>,
    lo: Seq<u64>,
    mid: Seq<u64>,
    hi: Seq<u64>,
    s: int,
)
    requires
        g.wf(),
        lo.len() == g.states.len(),
        total_choice(g, undecided, choice),
        undecided.len() == lo.len(),
        pointwise_le(lo, mid),
        pointwise_le(mid, hi),
        bounded(hi),
        0 <= s < lo.len(),
        undecided[s],
    ensures
        bellman(g, lo, s, false) <= chosen_value(g, mid, s, choice) <= bellman(g, hi, s, true),
        0 <= bellman(g, lo, s, false),
        bellman(g, hi, s, true) <= ONE,
{
    assert(chooses(g, choice, s));
    let e = choice[s];
    assert(bounded(mid));
    assert(bounded(lo));
    lemma_best_bounds(g, mid, s, g.edges.len() as int, e);
    lemma_bellman_mono(g, lo, mid, s, false);
    lemma_bellman_mono(g, mid, hi, s, true);
    lemma_bellman_range(g, lo, s, false);
    lemma_bellman_range(g, hi, s, true);
}

/// Within a sweep, the values under a choice stay between the smallest and
/// the largest values.
proof fn lemma_sweep_between(
    g: MdpView,
    undecided: Seq<bool>,
    choice: Seq<int>,
    lo: Seq<u64>,
    mid: Seq<u64>,
    hi: Seq<u64>,
    i: int,
)
    requires
        g.wf(),
        lo.len() == g.states.len(),
        total_choice(g, undecided, choice),
        undecided.len() == lo.len(),
        pointwise_le(lo, mid),
        pointwise_le(mid, hi),
        bounded(hi),
        0 <= i <= lo.len(),
    ensures
        pointwise_le(
            sweep_upto(g, undecided, false, lo, i),
            sweep_under_upto(g, undecided, choice, mid, i),
        ),
        pointwise_le(
            sweep_under_upto(g, undecided, choice, mid, i),
            sweep_upto(g, undecided, true, hi, i),
        ),
        bounded(sweep_upto(g, undecided, true, hi, i)),
        sweep_upto(g, undecided, false, lo, i).len() == lo.len(),
    decreases i,
{
    if i > 0 {
        lemma_sweep_between(g, undecided, choice, lo, mid, hi, i - 1);
        if undecided[i - 1] {
            lemma_update_between(
                g,
                undecided,
                choice,
                sweep_upto(g, undecided, false, lo, i - 1),
                sweep_under_upto(g, undecided, choice, mid, i - 1),
                sweep_upto(g, undecided, true, hi, i - 1),
                i - 1,
            );
        }
    }
}

/// The values of a choice of actions lie between those of the smallest and
/// of the largest run: after any number of sweeps from the same bounded
/// values, at every node, whatever action the choice takes at each
/// undecided state.
pub proof fn choice_between_runs(
    g: MdpView,
    undecided: Seq<bool>,
    choice: Seq<int>,
    v: Seq<u64>,
    k: nat,
)
    requires
        g.wf(),
        v.len() == g.states.len(),
        undecided.len() == v.len(),
        bounded(v),
        total_choice(g, undecided, choice),
    ensures
        pointwise_le(sweeps(g, undecided, false, v, k), sweeps_under(g, undecided, choice, v, k)),
        pointwise_le(sweeps_under(g, undecided, choice, v, k), sweeps(g, undecided, true, v, k)),
        bounded(sweeps(g, undecided, true, v, k)),
        sweeps(g, undecided, false, v, k).len() == v.len(),
    decreases k,
{
    if k > 0 {
        choice_between_runs(g, undecided, choice, v, (k - 1) as nat);
        let lo = sweeps(g, undecided, false, v, (k - 1) as nat);
        let mid = sweeps_under(g, undecided, choice, v, (k - 1) as nat);
        let hi = sweeps(g, undecided, true, v, (k - 1) as nat);
        lemma_sweep_between(g, undecided, choice, lo, mid, hi, lo.len() as int);
    }
}

/// The smallest and the largest value among the same actions: there is
/// the one where there is the other, and the smallest is not above the
/// largest.
pub proof fn lemma_best_sides(g: MdpView, v: Seq<u64>, s: int, k: int)
    requires
        0 <= k <= g.edges.len(),
    ensures
        best(g, v, s, false, k) is None <==> best(g, v, s, true, k) is None,
        best(g, v, s, false, k) matches Some(p) ==> p <= best(g, v, s, true, k).unwrap(),
    decreases k,
{
    if k > 0 {
        lemma_best_sides(g, v, s, k - 1);
    }
}

/// One sweep keeps the smallest values below the largest.
proof fn lemma_sweep_below(g: MdpView, undecided: Seq<bool>, lo: Seq<u64>, hi: Seq<u64>, i: int)
    requires
        g.wf(),
        lo.len() == g.states.len(),
        undecided.len() == lo.len(),
        pointwise_le(lo, hi),
        bounded(hi),
        0 <= i <= lo.len(),
    ensures
        sweep_upto(g, undecided, false, lo, i).len() == lo.len(),
        pointwise_le(sweep_upto(g, undecided, false, lo, i), sweep_upto(g, undecided, true, hi, i)),
        bounded(sweep_upto(g, undecided, true, hi, i)),
    decreases i,
{
    if i > 0 {
        lemma_sweep_below(g, undecided, lo, hi, i - 1);
        let p = sweep_upto(g, undecided, false, lo, i - 1);
        let q = sweep_upto(g, undecided, true, hi, i - 1);
        if undecided[i - 1] {
            assert(bounded(p)) by {
                assert forall|j: int| 0 <= j < p.len() implies #[trigger] p[j] <= ONE by {
                    assert(p[j] <= q[j]);
                }
            }
            lemma_bellman_range(g, p, i - 1, false);
            lemma_bellman_range(g, q, i - 1, true);
            lemma_bellman_mono(g, p, q, i - 1, false);
            lemma_best_sides(g, q, i - 1, g.edges.len() as int);
            let x = bellman(g, p, i - 1, false);
            let y = bellman(g, q, i - 1, true);
            assert(x <= y);
            let p2 = p.update(i - 1, x as u64);
            let q2 = q.update(i - 1, y as u64);
            assert forall|j: int| 0 <= j < p2.len() implies #[trigger] p2[j] <= q2[j] by {
                if j != i - 1 {
                    assert(p[j] <= q[j]);
                }
            }
            assert forall|j: int| 0 <= j < q2.len() implies #[trigger] q2[j] <= ONE by {
                if j != i - 1 {
                    assert(q[j] <= ONE);
                }
            }
        }
    }
}

/// After the same number of sweeps from the same bounded values, the
/// values of the smallest run are at most those of the largest run, at every
/// node.
pub proof fn smallest_below_largest(g: MdpView, undecided: Seq<bool>, v: Seq<u64>, k: nat)
    requires
        g.wf(),
        v.len() == g.states.len(),
        undecided.len() == v.len(),
        bounded(v),
    ensures
        sweeps(g, undecided, false, v, k).len() == v.len(),
        pointwise_le(sweeps(g, undecided, false, v, k), sweeps(g, undecided, true, v, k)),
        bounded(sweeps(g, undecided, true, v, k)),
    decreases k,
{
    if k > 0 {
        smallest_below_largest(g, undecided, v, (k - 1) as nat);
        let lo = sweeps(g, undecided, false, v, (k - 1) as nat);
        let hi = sweeps(g, undecided, true, v, (k - 1) as nat);
        lemma_sweep_below(g, undecided, lo, hi, lo.len() as int);
    }
}

/// Sweeps from rising values keep the values bounded and rising, and let
/// none fall.
pub proof fn lemma_sweeps_rising(g: MdpView, undecided: Seq<bool>, upper: bool, v: Seq<u64>, k: nat)
    requires
        g.wf(),
        v.len() == g.states.len(),
        undecided.len() == v.len(),
        bounded(v),
        rising(g, undecided, upper, v),
    ensures
        sweeps(g, undecided, upper, v, k).len() == v.len(),
        bounded(sweeps(g, undecided, upper, v, k)),
        rising(g, undecided, upper, sweeps(g, undecided, upper, v, k)),
        pointwise_le(v, sweeps(g, undecided, upper, v, k)),
    decreases k,
{
    if k > 0 {
        lemma_sweeps_rising(g, undecided, upper, v, (k - 1) as nat);
        let p = sweeps(g, undecided, upper, v, (k - 1) as nat);
        lemma_sweep_upto_rising(g, undecided, upper, p, p.len() as int);
    }
}

/// From rising values, more sweeps give values that are at least as
/// large.
pub proof fn lemma_sweeps_grow(g: MdpView, undecided: Seq<bool>, upper: bool, v: Seq<u64>, k: nat, l: nat)
    requires
        g.wf(),
        v.len() == g.states.len(),
        undecided.len() == v.len(),
        bounded(v),
        rising(g, undecided, upper, v),
        k <= l,
    ensures
        pointwise_le(sweeps(g, undecided, upper, v, k), sweeps(g, undecided, upper, v, l)),
    decreases l,
{
    lemma_sweeps_rising(g, undecided, upper, v, k);
    if k < l {
        lemma_sweeps_grow(g, undecided, upper, v, k, (l - 1) as nat);
        lemma_sweeps_rising(g, undecided, upper, v, (l - 1) as nat);
        let a = sweeps(g, undecided, upper, v, k);
        let p = sweeps(g, undecided, upper, v, (l - 1) as nat);
        lemma_sweep_upto_rising(g, undecided, upper, p, p.len() as int);
        let q = sweeps(g, undecided, upper, v, l);
        assert forall|j: int| 0 <= j < a.len() implies #[trigger] a[j] <= q[j] by {
            assert(a[j] <= p[j]);
            assert(p[j] <= q[j]);
        }
    }
}

/// The values at which the smallest run stops are at most those at which
/// the largest run stops, at every node, where the smallest run stops no
/// later than the largest. The two runs may stop after different numbers of
/// sweeps; where the largest run stops first, only the values after the
/// same number of sweeps are known to be in this order.
pub proof fn smallest_result_below_largest(g: MdpView, undecided: Seq<bool>, v: Seq<u64>, eps: int)
    requires
        g.wf(),
        v.len() == g.states.len(),
        undecided.len() == v.len(),
        bounded(v),
        rising(g, undecided, true, v),
        rounds(g, undecided, false, v, eps) <= rounds(g, undecided, true, v, eps),
    ensures
        pointwise_le(settled(g, undecided, false, v, eps), settled(g, undecided, true, v, eps)),
{
    let k = rounds(g, undecided, false, v, eps);
    let l = rounds(g, undecided, true, v, eps);
    smallest_below_largest(g, undecided, v, k);
    lemma_sweeps_grow(g, undecided, true, v, k, l);
    let a = sweeps(g, undecided, false, v, k);
    let b = sweeps(g, undecided, true, v, k);
    let c = sweeps(g, undecided, true, v, l);
    assert forall|j: int| 0 <= j < a.len() implies #[trigger] a[j] <= c[j] by {
        assert(a[j] <= b[j]);
        assert(b[j] <= c[j]);
    }
}

/// A sweep changes the values of undecided nodes only.
proof fn lemma_sweep_upto_keeps(g: MdpView, undecided: Seq<bool>, upper: bool, v: Seq<u64>, i: int)
    requires
        undecided.len() == v.len(),
        0 <= i <= v.len(),
    ensures
        sweep_upto(g, undecided, upper, v, i).len() == v.len(),
        forall|s: int|
            0 <= s < v.len() && !undecided[s] ==> #[trigger] sweep_upto(g, undecided, upper, v, i)[s] == v[s],
    decreases i,
{
    if i > 0 {
        lemma_sweep_upto_keeps(g, undecided, upper, v, i - 1);
    }
}

/// The value of a node that is decided stays what it was, through any
/// number of sweeps of either run, and so in the values at which a run
/// stops.
pub proof fn decided_values_stay(g: MdpView, undecided: Seq<bool>, upper: bool, v: Seq<u64>, k: nat)
    requires
        undecided.len() == v.len(),
    ensures
        sweeps(g, undecided, upper, v, k).len() == v.len(),
        forall|s: int|
            0 <= s < v.len() && !undecided[s] ==> #[trigger] sweeps(g, undecided, upper, v, k)[s] == v[s],
    decreases k,
{
    if k > 0 {
        decided_values_stay(g, undecided, upper, v, (k - 1) as nat);
        let p = sweeps(g, undecided, upper, v, (k - 1) as nat);
        lemma_sweep_upto_keeps(g, undecided, upper, p, p.len() as int);
    }
}

} // verus!
