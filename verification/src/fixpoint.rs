//! Sets of nodes, kept as one flag per node, and the two fixpoints that
//! decide which states reach a goal with probability zero or one.

use crate::mdp::{Mdp, MdpView};
use vstd::prelude::*;

verus! {

/// The set of nodes that a vector of flags stands for.
pub open spec fn set_of(m: Seq<bool>) -> Set<int> {
    Set::new(|i: int| 0 <= i < m.len() && m[i])
}

/// The number of flags set among the first `k`.
pub open spec fn count(m: Seq<bool>, k: int) -> int
    decreases k,
{
    if k <= 0 {
        0
    } else {
        count(m, k - 1) + if m[k - 1] {
            1int
        } else {
            0int
        }
    }
}

/// Some edge leads from node `n` into `y`.
pub open spec fn steps_into(g: MdpView, n: int, y: Set<int>) -> bool {
    exists|e: int|
        0 <= e < g.edges.len() && (#[trigger] g.edges[e]).source == n && y.contains(
            g.edges[e].target as int,
        )
}

/// The nodes with an edge into `y`.
pub open spec fn pre(g: MdpView, y: Set<int>) -> Set<int> {
    Set::new(|n: int| steps_into(g, n, y))
}

/// The states from which every action has all its outcomes in `x`: no two
/// steps lead to a state outside `x`.
pub open spec fn safe(g: MdpView, x: Set<int>) -> Set<int> {
    Set::new(|s: int| g.is_state(s) && !pre(g, pre(g, g.state_set().difference(x))).contains(s))
}

/// The states that some edge leads to.
pub open spec fn entered(g: MdpView) -> Set<int> {
    Set::new(
        |s: int| g.is_state(s) && exists|e: int| 0 <= e < g.edges.len() && (#[trigger] g.edges[e]).target == s,
    )
}

/// One step of the weak-until operator.
pub open spec fn w_step(g: MdpView, l: Set<int>, r: Set<int>, x: Set<int>) -> Set<int> {
    safe(g, x).intersect(l).union(r)
}

/// `x` is a set of states that one step does not shrink.
pub open spec fn w_stable(g: MdpView, l: Set<int>, r: Set<int>, x: Set<int>) -> bool {
    x.subset_of(g.state_set()) && x.subset_of(w_step(g, l, r, x))
}

/// The greatest set of states that one step of the weak-until operator does
/// not shrink: the states from which every path stays in `l` for ever or
/// until it enters `r`.
pub open spec fn w_set(g: MdpView, l: Set<int>, r: Set<int>) -> Set<int> {
    Set::new(|s: int| exists|x: Set<int>| #[trigger] w_stable(g, l, r, x) && x.contains(s))
}

/// One step of the until operator.
pub open spec fn u_step(g: MdpView, l: Set<int>, r: Set<int>, x: Set<int>) -> Set<int> {
    r.union(entered(g).intersect(l).intersect(safe(g, x)))
}

/// One step of the until operator adds nothing to `x`.
pub open spec fn u_closed(g: MdpView, l: Set<int>, r: Set<int>, x: Set<int>) -> bool {
    u_step(g, l, r, x).subset_of(x)
}

/// The least set that one step of the until operator does not enlarge: `r`,
/// and the states in `l` that are entered by some edge and from which every
/// path leads into `r`.
pub open spec fn u_set(g: MdpView, l: Set<int>, r: Set<int>) -> Set<int> {
    Set::new(|s: int| forall|x: Set<int>| #[trigger] u_closed(g, l, r, x) ==> x.contains(s))
}

pub proof fn lemma_count_bound(m: Seq<bool>, k: int)
    requires
        0 <= k <= m.len(),
    ensures
        0 <= count(m, k) <= k,
    decreases k,
{
    if k > 0 {
        lemma_count_bound(m, k - 1);
    }
}

/// A vector of flags that lies within another and differs from it has
/// fewer flags set.
pub proof fn lemma_count_less(a: Seq<bool>, b: Seq<bool>, k: int)
    requires
        a.len() == b.len(),
        0 <= k <= a.len(),
        forall|i: int| 0 <= i < a.len() && a[i] ==> b[i],
    ensures
        count(a, k) <= count(b, k),
        (exists|i: int| 0 <= i < k && a[i] != b[i]) ==> count(a, k) < count(b, k),
    decreases k,
{
    if k > 0 {
        lemma_count_less(a, b, k - 1);
        if exists|i: int| 0 <= i < k && a[i] != b[i] {
            let i = choose|i: int| 0 <= i < k && a[i] != b[i];
            if i < k - 1 {
                assert(exists|i: int| 0 <= i < k - 1 && a[i] != b[i]);
            }
        }
    }
}

pub proof fn lemma_pre_mono(g: MdpView, y: Set<int>, z: Set<int>)
    requires
        y.subset_of(z),
    ensures
        pre(g, y).subset_of(pre(g, z)),
{
    assert forall|n: int| pre(g, y).contains(n) implies pre(g, z).contains(n) by {
        let e = choose|e: int|
            0 <= e < g.edges.len() && (#[trigger] g.edges[e]).source == n && y.contains(
                g.edges[e].target as int,
            );
        assert(z.contains(g.edges[e].target as int));
    }
}

pub proof fn lemma_safe_mono(g: MdpView, x: Set<int>, y: Set<int>)
    requires
        x.subset_of(y),
    ensures
        safe(g, x).subset_of(safe(g, y)),
{
    let s = g.state_set();
    assert(s.difference(y).subset_of(s.difference(x)));
    lemma_pre_mono(g, s.difference(y), s.difference(x));
    lemma_pre_mono(g, pre(g, s.difference(y)), pre(g, s.difference(x)));
}

/// The flags of the state nodes.
pub fn state_mask(mdp: &Mdp) -> (m: Vec<bool>)
    requires
        mdp.wf(),
    ensures
        m@ == mdp@.states,
        set_of(m@) == mdp@.state_set(),
{
    let n = mdp.node_count();
    let mut m: Vec<bool> = Vec::new();
    let mut i: usize = 0;
    while i < n
        invariant
            mdp.wf(),
            n == mdp@.states.len(),
            i <= n,
            m@.len() == i,
            forall|j: int| 0 <= j < i ==> m@[j] == mdp@.states[j],
        decreases n - i,
    {
        m.push(mdp.is_state(i));
        i = i + 1;
    }
    assert(m@ =~= mdp@.states);
    assert(set_of(m@) =~= mdp@.state_set());
    m
}

/// Whether two vectors of flags are the same.
pub fn same_mask(a: &Vec<bool>, b: &Vec<bool>) -> (res: bool)
    requires
        a@.len() == b@.len(),
    ensures
        res == (a@ == b@),
        !res ==> exists|i: int| 0 <= i < a@.len() && a@[i] != b@[i],
{
    let n = a.len();
    let mut i: usize = 0;
    while i < n
        invariant
            n == a@.len(),
            n == b@.len(),
            i <= n,
            forall|j: int| 0 <= j < i ==> a@[j] == b@[j],
        decreases n - i,
    {
        if a[i] != b[i] {
            return false;
        }
        i = i + 1;
    }
    assert(a@ =~= b@);
    true
}

/// The nodes with an edge into `y`.
pub fn pre_mask(mdp: &Mdp, y: &Vec<bool>) -> (res: Vec<bool>)
    requires
        mdp.wf(),
        y@.len() == mdp@.states.len(),
    ensures
        res@.len() == y@.len(),
        set_of(res@) == pre(mdp@, set_of(y@)),
{
    let n = mdp.node_count();
    let m = mdp.edge_count();
    let mut res: Vec<bool> = Vec::new();
    let mut i: usize = 0;
    while i < n
        invariant
            i <= n,
            res@.len() == i,
            forall|j: int| 0 <= j < i ==> !res@[j],
        decreases n - i,
    {
        res.push(false);
        i = i + 1;
    }
    let mut e: usize = 0;
    while e < m
        invariant
            mdp.wf(),
            n == mdp@.states.len(),
            m == mdp@.edges.len(),
            y@.len() == n,
            res@.len() == n,
            e <= m,
            forall|j: int|
                0 <= j < n ==> (#[trigger] res@[j] <==> exists|k: int|
                    0 <= k < e && (#[trigger] mdp@.edges[k]).source == j && y@[mdp@.edges[k].target as int]),
        decreases m - e,
    {
        let ed = mdp.edge(e);
        let ghost before = res@;
        if y[ed.target] {
            res.set(ed.source, true);
        }
        assert forall|j: int| 0 <= j < n implies (#[trigger] res@[j] <==> exists|k: int|
            0 <= k < e + 1 && (#[trigger] mdp@.edges[k]).source == j && y@[mdp@.edges[k].target as int]) by {
            if res@[j] {
                if before[j] {
                    let k = choose|k: int|
                        0 <= k < e && (#[trigger] mdp@.edges[k]).source == j && y@[mdp@.edges[k].target as int];
                    assert(0 <= k < e + 1);
                } else {
                    assert(mdp@.edges[e as int].source == j);
                }
            } else {
                if exists|k: int|
                    0 <= k < e + 1 && (#[trigger] mdp@.edges[k]).source == j && y@[mdp@.edges[k].target as int] {
                    let k = choose|k: int|
                        0 <= k < e + 1 && (#[trigger] mdp@.edges[k]).source == j
                            && y@[mdp@.edges[k].target as int];
                    if k < e {
                        assert(before[j]);
                    }
                }
            }
        }
        e = e + 1;
    }
    proof {
        assert forall|j: int| set_of(res@).contains(j) <==> pre(mdp@, set_of(y@)).contains(j) by {
            if set_of(res@).contains(j) {
                let k = choose|k: int|
                    0 <= k < m && (#[trigger] mdp@.edges[k]).source == j && y@[mdp@.edges[k].target as int];
                assert(mdp@.edge_ok(mdp@.edges[k]));
                assert(set_of(y@).contains(mdp@.edges[k].target as int));
            }
            if pre(mdp@, set_of(y@)).contains(j) {
                let k = choose|k: int|
                    0 <= k < mdp@.edges.len() && (#[trigger] mdp@.edges[k]).source == j && set_of(
                        y@,
                    ).contains(mdp@.edges[k].target as int);
                assert(mdp@.edge_ok(mdp@.edges[k]));
                assert(res@[j]);
            }
        }
        assert(set_of(res@) =~= pre(mdp@, set_of(y@)));
    }
    res
}

/// The states from which no two steps lead to a state outside `x`.
pub fn safe_mask(mdp: &Mdp, x: &Vec<bool>) -> (res: Vec<bool>)
    requires
        mdp.wf(),
        x@.len() == mdp@.states.len(),
    ensures
        res@.len() == x@.len(),
        set_of(res@) == safe(mdp@, set_of(x@)),
{
    let n = mdp.node_count();
    let mut outside: Vec<bool> = Vec::new();
    let mut i: usize = 0;
    while i < n
        invariant
            mdp.wf(),
            n == mdp@.states.len(),
            x@.len() == n,
            i <= n,
            outside@.len() == i,
            forall|j: int| 0 <= j < i ==> outside@[j] == (mdp@.states[j] && !x@[j]),
        decreases n - i,
    {
        outside.push(mdp.is_state(i) && !x[i]);
        i = i + 1;
    }
    assert(set_of(outside@) =~= mdp@.state_set().difference(set_of(x@)));
    let one = pre_mask(mdp, &outside);
    let two = pre_mask(mdp, &one);
    let mut res: Vec<bool> = Vec::new();
    let mut i: usize = 0;
    while i < n
        invariant
            mdp.wf(),
            n == mdp@.states.len(),
            two@.len() == n,
            i <= n,
            res@.len() == i,
            forall|j: int| 0 <= j < i ==> res@[j] == (mdp@.states[j] && !two@[j]),
        decreases n - i,
    {
        res.push(mdp.is_state(i) && !two[i]);
        i = i + 1;
    }
    proof {
        assert forall|j: int| set_of(res@).contains(j) <==> safe(mdp@, set_of(x@)).contains(j) by {
            assert(set_of(two@).contains(j) <==> 0 <= j < n && two@[j]);
        }
        assert(set_of(res@) =~= safe(mdp@, set_of(x@)));
    }
    res
}

/// The states that some edge leads to.
pub fn entered_mask(mdp: &Mdp) -> (res: Vec<bool>)
    requires
        mdp.wf(),
    ensures
        res@.len() == mdp@.states.len(),
        set_of(res@) == entered(mdp@),
{
    let n = mdp.node_count();
    let m = mdp.edge_count();
    let mut res: Vec<bool> = Vec::new();
    let mut i: usize = 0;
    while i < n
        invariant
            i <= n,
            res@.len() == i,
            forall|j: int| 0 <= j < i ==> !res@[j],
        decreases n - i,
    {
        res.push(false);
        i = i + 1;
    }
    let mut e: usize = 0;
    while e < m
        invariant
            mdp.wf(),
            n == mdp@.states.len(),
            m == mdp@.edges.len(),
            res@.len() == n,
            e <= m,
            forall|j: int|
                0 <= j < n ==> (#[trigger] res@[j] <==> mdp@.states[j] && exists|k: int|
                    0 <= k < e && (#[trigger] mdp@.edges[k]).target == j),
        decreases m - e,
    {
        let ed = mdp.edge(e);
        let ghost before = res@;
        if mdp.is_state(ed.target) {
            res.set(ed.target, true);
        }
        assert forall|j: int| 0 <= j < n implies (#[trigger] res@[j] <==> mdp@.states[j] && exists|k: int|
            0 <= k < e + 1 && (#[trigger] mdp@.edges[k]).target == j) by {
            if res@[j] {
                if before[j] {
                    let k = choose|k: int| 0 <= k < e && (#[trigger] mdp@.edges[k]).target == j;
                    assert(0 <= k < e + 1);
                } else {
                    assert(mdp@.edges[e as int].target == j);
                }
            } else {
                if mdp@.states[j] && exists|k: int|
                    0 <= k < e + 1 && (#[trigger] mdp@.edges[k]).target == j {
                    let k = choose|k: int| 0 <= k < e + 1 && (#[trigger] mdp@.edges[k]).target == j;
                    if k < e {
                        assert(before[j]);
                    }
                }
            }
        }
        e = e + 1;
    }
    proof {
        assert forall|j: int| set_of(res@).contains(j) <==> entered(mdp@).contains(j) by {
            if entered(mdp@).contains(j) {
                assert(res@[j]);
            }
        }
        assert(set_of(res@) =~= entered(mdp@));
    }
    res
}

pub proof fn lemma_w_step_mono(g: MdpView, l: Set<int>, r: Set<int>, x: Set<int>, y: Set<int>)
    requires
        x.subset_of(y),
    ensures
        w_step(g, l, r, x).subset_of(w_step(g, l, r, y)),
{
    lemma_safe_mono(g, x, y);
}

pub proof fn lemma_u_step_mono(g: MdpView, l: Set<int>, r: Set<int>, x: Set<int>, y: Set<int>)
    requires
        x.subset_of(y),
    ensures
        u_step(g, l, r, x).subset_of(u_step(g, l, r, y)),
{
    lemma_safe_mono(g, x, y);
}

/// A copy of a vector of flags.
pub fn copy_mask(a: &Vec<bool>) -> (res: Vec<bool>)
    ensures
        res@ == a@,
{
    let n = a.len();
    let mut res: Vec<bool> = Vec::new();
    let mut i: usize = 0;
    while i < n
        invariant
            n == a@.len(),
            i <= n,
            res@.len() == i,
            forall|j: int| 0 <= j < i ==> res@[j] == a@[j],
        decreases n - i,
    {
        res.push(a[i]);
        i = i + 1;
    }
    assert(res@ =~= a@);
    res
}

/// The weak-until fixpoint: the greatest set of states that lies within
/// `(safe(x) & l) | r` of itself. It is reached from the set of all states
/// by applying the step until nothing leaves.
pub fn w_op(mdp: &Mdp, l: &Vec<bool>, r: &Vec<bool>) -> (x: Vec<bool>)
    requires
        mdp.wf(),
        l@.len() == mdp@.states.len(),
        r@.len() == mdp@.states.len(),
    ensures
        x@.len() == mdp@.states.len(),
        set_of(x@) == w_set(mdp@, set_of(l@), set_of(r@)),
        set_of(x@).subset_of(mdp@.state_set()),
{
    let n = mdp.node_count();
    let mut x = state_mask(mdp);
    let ghost ls = set_of(l@);
    let ghost rs = set_of(r@);
    loop
        invariant
            mdp.wf(),
            n == mdp@.states.len(),
            l@.len() == n,
            r@.len() == n,
            x@.len() == n,
            ls == set_of(l@),
            rs == set_of(r@),
            set_of(x@).subset_of(mdp@.state_set()),
            forall|y: Set<int>| #[trigger] w_stable(mdp@, ls, rs, y) ==> y.subset_of(set_of(x@)),
        ensures
            x@.len() == n,
            w_stable(mdp@, ls, rs, set_of(x@)),
        decreases count(x@, n as int),
    {
        let sf = safe_mask(mdp, &x);
        let mut nx: Vec<bool> = Vec::new();
        let mut i: usize = 0;
        while i < n
            invariant
                n == x@.len(),
                l@.len() == n,
                r@.len() == n,
                sf@.len() == n,
                i <= n,
                nx@.len() == i,
                forall|j: int| 0 <= j < i ==> nx@[j] == (x@[j] && (r@[j] || (l@[j] && sf@[j]))),
            decreases n - i,
        {
            nx.push(x[i] && (r[i] || (l[i] && sf[i])));
            i = i + 1;
        }
        proof {
            assert(set_of(nx@) =~= set_of(x@).intersect(w_step(mdp@, ls, rs, set_of(x@))));
            assert forall|y: Set<int>| #[trigger] w_stable(mdp@, ls, rs, y) implies y.subset_of(
                set_of(nx@),
            ) by {
                lemma_w_step_mono(mdp@, ls, rs, y, set_of(x@));
            }
        }
        if same_mask(&nx, &x) {
            break ;
        }
        proof {
            lemma_count_less(nx@, x@, n as int);
            lemma_count_bound(nx@, n as int);
            lemma_count_bound(x@, n as int);
        }
        x = nx;
    }
    proof {
        let fin = set_of(x@);
        assert forall|s: int| fin.contains(s) <==> w_set(mdp@, ls, rs).contains(s) by {
            if w_set(mdp@, ls, rs).contains(s) {
                let y = choose|y: Set<int>| #[trigger] w_stable(mdp@, ls, rs, y) && y.contains(s);
                assert(y.subset_of(fin));
            }
        }
        assert(fin =~= w_set(mdp@, ls, rs));
    }
    x
}

/// The until fixpoint: the least set that holds `r` and, of itself,
/// `entered & l & safe(x)`. It is reached from `r` by applying the step
/// until nothing is added.
pub fn u_op(mdp: &Mdp, l: &Vec<bool>, r: &Vec<bool>) -> (x: Vec<bool>)
    requires
        mdp.wf(),
        l@.len() == mdp@.states.len(),
        r@.len() == mdp@.states.len(),
    ensures
        x@.len() == mdp@.states.len(),
        set_of(x@) == u_set(mdp@, set_of(l@), set_of(r@)),
        set_of(r@).subset_of(set_of(x@)),
        set_of(x@).subset_of(set_of(r@).union(mdp@.state_set())),
{
    let n = mdp.node_count();
    let en = entered_mask(mdp);
    let mut x = copy_mask(r);
    let ghost ls = set_of(l@);
    let ghost rs = set_of(r@);
    loop
        invariant
            mdp.wf(),
            n == mdp@.states.len(),
            l@.len() == n,
            r@.len() == n,
            en@.len() == n,
            x@.len() == n,
            ls == set_of(l@),
            rs == set_of(r@),
            set_of(en@) == entered(mdp@),
            rs.subset_of(set_of(x@)),
            set_of(x@).subset_of(rs.union(mdp@.state_set())),
            forall|y: Set<int>| #[trigger] u_closed(mdp@, ls, rs, y) ==> set_of(x@).subset_of(y),
        ensures
            x@.len() == n,
            rs.subset_of(set_of(x@)),
            set_of(x@).subset_of(rs.union(mdp@.state_set())),
            u_closed(mdp@, ls, rs, set_of(x@)),
        decreases n - count(x@, n as int),
    {
        let sf = safe_mask(mdp, &x);
        let mut nx: Vec<bool> = Vec::new();
        let mut i: usize = 0;
        while i < n
            invariant
                n == x@.len(),
                l@.len() == n,
                en@.len() == n,
                sf@.len() == n,
                i <= n,
                nx@.len() == i,
                forall|j: int| 0 <= j < i ==> nx@[j] == (x@[j] || (en@[j] && l@[j] && sf@[j])),
            decreases n - i,
        {
            nx.push(x[i] || (en[i] && l[i] && sf[i]));
            i = i + 1;
        }
        proof {
            assert forall|j: int| set_of(en@).contains(j) <==> 0 <= j < n && en@[j] by {}
            assert(set_of(nx@) =~= set_of(x@).union(
                entered(mdp@).intersect(ls).intersect(safe(mdp@, set_of(x@))),
            ));
            assert forall|y: Set<int>| #[trigger] u_closed(mdp@, ls, rs, y) implies set_of(
                nx@,
            ).subset_of(y) by {
                lemma_u_step_mono(mdp@, ls, rs, set_of(x@), y);
            }
        }
        if same_mask(&nx, &x) {
            break ;
        }
        proof {
            lemma_count_less(x@, nx@, n as int);
            lemma_count_bound(nx@, n as int);
        }
        x = nx;
    }
    proof {
        let fin = set_of(x@);
        assert forall|s: int| fin.contains(s) <==> u_set(mdp@, ls, rs).contains(s) by {}
        assert(fin =~= u_set(mdp@, ls, rs));
    }
    x
}

} // verus!
