//! Finite sets kept as lists: an element stands for a mathematical value,
//! and a list stands for the set of its elements' values.

use vstd::prelude::*;

verus! {

/// A value that can be compared and copied, and that stands for a
/// mathematical value.
pub trait Element: Sized {
    type Model;

    /// The mathematical value.
    spec fn elem(&self) -> Self::Model;

    /// Whether two values stand for the same.
    fn eq_elem(&self, other: &Self) -> (res: bool)
        ensures
            res == (self.elem() == other.elem()),
    ;

    /// A copy.
    fn copy_elem(&self) -> (res: Self)
        ensures
            res.elem() == self.elem(),
    ;
}

impl Element for usize {
    type Model = usize;

    open spec fn elem(&self) -> usize {
        *self
    }

    fn eq_elem(&self, other: &usize) -> (res: bool) {
        *self == *other
    }

    fn copy_elem(&self) -> (res: usize) {
        *self
    }
}

/// The list holds an element that stands for `m`.
pub open spec fn occurs<T: Element>(v: Seq<T>, m: T::Model) -> bool {
    exists|i: int| 0 <= i < v.len() && (#[trigger] v[i]).elem() == m
}

/// The set that the list stands for.
pub open spec fn elems<T: Element>(v: Seq<T>) -> Set<T::Model> {
    Set::new(|m: T::Model| occurs(v, m))
}

/// No two elements of the list stand for the same.
pub open spec fn distinct<T: Element>(v: Seq<T>) -> bool {
    forall|i: int, j: int| 0 <= i < j < v.len() ==> (#[trigger] v[i]).elem() != (#[trigger] v[j]).elem()
}

/// Every element of `a` is one of `b`.
pub open spec fn within<T: Element>(a: Seq<T>, b: Seq<T>) -> bool {
    forall|i: int| 0 <= i < a.len() ==> occurs(b, (#[trigger] a[i]).elem())
}

/// The two lists hold the same values at the same places.
pub open spec fn alike<T: Element>(a: Seq<T>, b: Seq<T>) -> bool {
    a.len() == b.len() && forall|i: int| 0 <= i < a.len() ==> (#[trigger] a[i]).elem() == b[i].elem()
}

pub proof fn lemma_within_subset<T: Element>(a: Seq<T>, b: Seq<T>)
    ensures
        within(a, b) <==> elems(a).subset_of(elems(b)),
{
    if within(a, b) {
        assert forall|m: T::Model| elems(a).contains(m) implies elems(b).contains(m) by {
            let i = choose|i: int| 0 <= i < a.len() && (#[trigger] a[i]).elem() == m;
            assert(occurs(b, a[i].elem()));
        }
    }
    if elems(a).subset_of(elems(b)) {
        assert forall|i: int| 0 <= i < a.len() implies occurs(b, (#[trigger] a[i]).elem()) by {
            assert(occurs(a, a[i].elem()));
            assert(elems(a).contains(a[i].elem()));
        }
    }
}

pub proof fn lemma_alike_elems<T: Element>(a: Seq<T>, b: Seq<T>)
    requires
        alike(a, b),
    ensures
        elems(a) == elems(b),
        distinct(a) == distinct(b),
{
    assert forall|m: T::Model| occurs(a, m) <==> occurs(b, m) by {
        if occurs(a, m) {
            let i = choose|i: int| 0 <= i < a.len() && (#[trigger] a[i]).elem() == m;
            assert(b[i].elem() == m);
        }
        if occurs(b, m) {
            let i = choose|i: int| 0 <= i < b.len() && (#[trigger] b[i]).elem() == m;
            assert(a[i].elem() == m);
        }
    }
    assert(elems(a) =~= elems(b));
    if distinct(a) {
        assert forall|i: int, j: int| 0 <= i < j < b.len() implies (#[trigger] b[i]).elem() != (
        #[trigger] b[j]).elem() by {
            assert(a[i].elem() != a[j].elem());
        }
    }
    if distinct(b) {
        assert forall|i: int, j: int| 0 <= i < j < a.len() implies (#[trigger] a[i]).elem() != (
        #[trigger] a[j]).elem() by {
            assert(b[i].elem() != b[j].elem());
        }
    }
}

pub proof fn lemma_push_elems<T: Element>(v: Seq<T>, x: T)
    ensures
        elems(v.push(x)) == elems(v).insert(x.elem()),
        distinct(v) && !occurs(v, x.elem()) ==> distinct(v.push(x)),
{
    let w = v.push(x);
    assert forall|m: T::Model| occurs(w, m) <==> (occurs(v, m) || m == x.elem()) by {
        if occurs(w, m) {
            let i = choose|i: int| 0 <= i < w.len() && (#[trigger] w[i]).elem() == m;
            if i < v.len() {
                assert(v[i].elem() == m);
            }
        }
        if occurs(v, m) {
            let i = choose|i: int| 0 <= i < v.len() && (#[trigger] v[i]).elem() == m;
            assert(w[i].elem() == m);
        }
        if m == x.elem() {
            assert(w[v.len() as int].elem() == m);
        }
    }
    assert(elems(w) =~= elems(v).insert(x.elem()));
    if distinct(v) && !occurs(v, x.elem()) {
        assert forall|i: int, j: int| 0 <= i < j < w.len() implies (#[trigger] w[i]).elem() != (
        #[trigger] w[j]).elem() by {
            if j < v.len() {
                assert(v[i].elem() != v[j].elem());
            } else {
                assert(v[i].elem() != x.elem());
            }
        }
    }
}

/// The first place in the list at which an element stands for the same as
/// `x`.
pub fn find<T: Element>(v: &Vec<T>, x: &T) -> (res: Option<usize>)
    ensures
        res is None <==> !occurs(v@, x.elem()),
        res matches Some(i) ==> i < v@.len() && v@[i as int].elem() == x.elem() && forall|j: int|
            0 <= j < i ==> (#[trigger] v@[j]).elem() != x.elem(),
{
    let n = v.len();
    let mut i: usize = 0;
    while i < n
        invariant
            n == v@.len(),
            i <= n,
            forall|j: int| 0 <= j < i ==> (#[trigger] v@[j]).elem() != x.elem(),
        decreases n - i,
    {
        if v[i].eq_elem(x) {
            return Some(i);
        }
        i = i + 1;
    }
    None
}

/// Whether the list holds an element that stands for the same as `x`.
pub fn member<T: Element>(v: &Vec<T>, x: &T) -> (res: bool)
    ensures
        res == occurs(v@, x.elem()),
        res == elems(v@).contains(x.elem()),
{
    find(v, x).is_some()
}

/// Adds `x` at the end unless the list holds its value already. Says
/// whether it was added.
pub fn put<T: Element>(v: &mut Vec<T>, x: T) -> (added: bool)
    ensures
        added == !occurs(old(v)@, x.elem()),
        added ==> final(v)@ == old(v)@.push(x),
        !added ==> final(v)@ == old(v)@,
        elems(final(v)@) == elems(old(v)@).insert(x.elem()),
        distinct(old(v)@) ==> distinct(final(v)@),
{
    proof {
        lemma_push_elems(v@, x);
    }
    if member(v, &x) {
        assert(elems(v@) =~= elems(v@).insert(x.elem()));
        false
    } else {
        v.push(x);
        true
    }
}

/// A copy of the list.
pub fn copy_all<T: Element>(v: &Vec<T>) -> (res: Vec<T>)
    ensures
        alike(res@, v@),
        elems(res@) == elems(v@),
        distinct(res@) == distinct(v@),
{
    let n = v.len();
    let mut res: Vec<T> = Vec::new();
    let mut i: usize = 0;
    while i < n
        invariant
            n == v@.len(),
            i <= n,
            res@.len() == i,
            forall|j: int| 0 <= j < i ==> (#[trigger] res@[j]).elem() == v@[j].elem(),
        decreases n - i,
    {
        res.push(v[i].copy_elem());
        i = i + 1;
    }
    proof {
        lemma_alike_elems(res@, v@);
    }
    res
}

/// Whether every element of `a` is one of `b`.
pub fn included<T: Element>(a: &Vec<T>, b: &Vec<T>) -> (res: bool)
    ensures
        res == within(a@, b@),
        res == elems(a@).subset_of(elems(b@)),
{
    proof {
        lemma_within_subset(a@, b@);
    }
    let n = a.len();
    let mut i: usize = 0;
    while i < n
        invariant
            n == a@.len(),
            i <= n,
            forall|j: int| 0 <= j < i ==> occurs(b@, (#[trigger] a@[j]).elem()),
        decreases n - i,
    {
        if !member(b, &a[i]) {
            return false;
        }
        i = i + 1;
    }
    true
}

/// Whether the two lists stand for the same set.
pub fn same_elems<T: Element>(a: &Vec<T>, b: &Vec<T>) -> (res: bool)
    ensures
        res == (elems(a@) == elems(b@)),
{
    let r = included(a, b) && included(b, a);
    proof {
        if r {
            assert(elems(a@) =~= elems(b@));
        }
    }
    r
}

/// Adds to `v` a copy of each element of `w` whose value it does not hold.
pub fn add_all<T: Element>(v: &mut Vec<T>, w: &Vec<T>)
    ensures
        elems(final(v)@) == elems(old(v)@).union(elems(w@)),
        distinct(old(v)@) ==> distinct(final(v)@),
        old(v)@.len() <= final(v)@.len(),
        forall|i: int| 0 <= i < old(v)@.len() ==> final(v)@[i] == old(v)@[i],
{
    let n = w.len();
    let mut i: usize = 0;
    assert(w@.take(0) =~= Seq::<T>::empty());
    assert(elems(v@) =~= elems(old(v)@).union(elems(w@.take(0))));
    while i < n
        invariant
            n == w@.len(),
            i <= n,
            elems(v@) == elems(old(v)@).union(elems(w@.take(i as int))),
            distinct(old(v)@) ==> distinct(v@),
            old(v)@.len() <= v@.len(),
            forall|j: int| 0 <= j < old(v)@.len() ==> v@[j] == old(v)@[j],
        decreases n - i,
    {
        let x = w[i].copy_elem();
        proof {
            assert(w@.take(i as int + 1) =~= w@.take(i as int).push(w@[i as int]));
            lemma_push_elems(w@.take(i as int), w@[i as int]);
        }
        let ghost before = v@;
        put(v, x);
        assert(elems(v@) =~= elems(old(v)@).union(elems(w@.take(i as int + 1))));
        i = i + 1;
    }
    assert(w@.take(n as int) =~= w@);
}

/// A copy of the list without the elements that stand for the same as
/// `x`.
pub fn without<T: Element>(v: &Vec<T>, x: &T) -> (res: Vec<T>)
    ensures
        elems(res@) == elems(v@).remove(x.elem()),
        res@.len() <= v@.len(),
        forall|i: int| 0 <= i < res@.len() ==> occurs(v@, (#[trigger] res@[i]).elem()),
{
    let n = v.len();
    let mut res: Vec<T> = Vec::new();
    let mut i: usize = 0;
    while i < n
        invariant
            n == v@.len(),
            i <= n,
            res@.len() <= i,
            forall|m: T::Model|
                occurs(res@, m) <==> m != x.elem() && exists|j: int|
                    0 <= j < i && (#[trigger] v@[j]).elem() == m,
            forall|k: int| 0 <= k < res@.len() ==> occurs(v@, (#[trigger] res@[k]).elem()),
        decreases n - i,
    {
        if !v[i].eq_elem(x) {
            let ghost before = res@;
            let c = v[i].copy_elem();
            proof {
                lemma_push_elems(before, c);
            }
            res.push(c);
            proof {
                assert forall|m: T::Model|
                    occurs(res@, m) <==> m != x.elem() && exists|j: int|
                        0 <= j < i + 1 && (#[trigger] v@[j]).elem() == m by {
                    assert(occurs(res@, m) <==> elems(res@).contains(m));
                    assert(occurs(before, m) <==> elems(before).contains(m));
                    assert(occurs(res@, m) <==> occurs(before, m) || m == v@[i as int].elem());
                }
                assert forall|k: int| 0 <= k < res@.len() implies occurs(
                    v@,
                    (#[trigger] res@[k]).elem(),
                ) by {
                    if k == before.len() {
                        assert(v@[i as int].elem() == res@[k].elem());
                    } else {
                        assert(occurs(v@, before[k].elem()));
                    }
                }
            }
        }
        i = i + 1;
    }
    proof {
        assert forall|m: T::Model| elems(res@).contains(m) <==> elems(v@).remove(x.elem()).contains(
            m,
        ) by {
            if elems(v@).remove(x.elem()).contains(m) {
                let j = choose|j: int| 0 <= j < v@.len() && (#[trigger] v@[j]).elem() == m;
                assert(occurs(res@, m));
            }
        }
        assert(elems(res@) =~= elems(v@).remove(x.elem()));
    }
    res
}

} // verus!
