//! Sets of formulae: transition labels, conjunctions, and the lifting of a
//! formula into a set of conjunctions.

use crate::listset::{
    copy_all, distinct, elems, lemma_push_elems, member, occurs, put, same_elems, Element,
};
use crate::ltl::formula::{conj, And, Ltl, PhiOp, AP, Not};
use vstd::prelude::*;

verus! {

impl Element for PhiOp {
    type Model = Ltl;

    open spec fn elem(&self) -> Ltl {
        self@
    }

    fn eq_elem(&self, other: &PhiOp) -> (res: bool) {
        self.same(other)
    }

    fn copy_elem(&self) -> (res: PhiOp) {
        self.duplicate()
    }
}

/// `f` is a proposition whose negation is in the set.
pub open spec fn denied(s: Set<Ltl>, f: Ltl) -> bool {
    match f {
        Ltl::AP(p) => s.contains(Ltl::Not(p)),
        _ => false,
    }
}

/// The set holds a proposition together with its negation.
pub open spec fn clash(s: Set<Ltl>) -> bool {
    exists|f: Ltl| #[trigger] s.contains(f) && denied(s, f)
}

/// A transition label: a set of literals that must all hold. The empty set
/// is the label that every letter satisfies.
#[derive(Debug)]
pub struct Alphabet(pub Vec<PhiOp>);

impl View for Alphabet {
    type V = Set<Ltl>;

    open spec fn view(&self) -> Set<Ltl> {
        elems(self.0@)
    }
}

impl Element for Alphabet {
    type Model = Set<Ltl>;

    open spec fn elem(&self) -> Set<Ltl> {
        self@
    }

    fn eq_elem(&self, other: &Alphabet) -> (res: bool) {
        let res = same_elems(&self.0, &other.0);
        assert(res == (elems(self.0@) == elems(other.0@)));
        assert(self.elem() == elems(self.0@));
        assert(other.elem() == elems(other.0@));
        res
    }

    fn copy_elem(&self) -> (res: Alphabet) {
        Alphabet(copy_all(&self.0))
    }
}

impl Alphabet {
    /// The label that every letter satisfies.
    pub fn full() -> (res: Alphabet)
        ensures
            res@ == Set::<Ltl>::empty(),
            distinct(res.0@),
    {
        let res = Alphabet(Vec::new());
        assert(res@ =~= Set::<Ltl>::empty());
        res
    }

    /// The label that asks for one literal.
    pub fn with_prop(ap: PhiOp) -> (res: Alphabet)
        ensures
            res@ == Set::<Ltl>::empty().insert(ap@),
            distinct(res.0@),
    {
        let mut list: Vec<PhiOp> = Vec::new();
        assert(elems(list@) =~= Set::<Ltl>::empty());
        put(&mut list, ap);
        Alphabet(list)
    }

    /// Whether the label asks for nothing.
    pub fn is_full(&self) -> (res: bool)
        ensures
            res == (self@ == Set::<Ltl>::empty()),
    {
        let r = self.0.len() == 0;
        proof {
            if r {
                assert(self@ =~= Set::<Ltl>::empty());
            } else {
                assert(occurs(self.0@, self.0@[0].elem()));
                assert(self@.contains(self.0@[0].elem()));
            }
        }
        r
    }

    /// Whether the label asks for a proposition and for its negation.
    pub fn clashes(&self) -> (res: bool)
        ensures
            res == clash(self@),
    {
        let n = self.0.len();
        let mut i: usize = 0;
        while i < n
            invariant
                n == self.0@.len(),
                i <= n,
                forall|j: int| 0 <= j < i ==> !denied(self@, (#[trigger] self.0@[j])@),
            decreases n - i,
        {
            match &self.0[i] {
                PhiOp::AP(a) => {
                    let neg = PhiOp::Not(Not { ap: AP { value: a.value.clone() } });
                    if member(&self.0, &neg) {
                        proof {
                            assert(occurs(self.0@, self.0@[i as int].elem()));
                            assert(self@.contains(self.0@[i as int]@));
                            assert(denied(self@, self.0@[i as int]@));
                        }
                        return true;
                    }
                },
                _ => {},
            }
            i = i + 1;
        }
        proof {
            if clash(self@) {
                let f = choose|f: Ltl| #[trigger] self@.contains(f) && denied(self@, f);
                let j = choose|j: int| 0 <= j < self.0@.len() && (#[trigger] self.0@[j]).elem() == f;
                assert(self.0@[j]@ == f);
            }
        }
        false
    }

    /// The label that asks for what both labels ask for, unless that is a
    /// proposition together with its negation: then no letter satisfies
    /// both, and there is no label.
    pub fn intersection(&self, other: &Alphabet) -> (res: Option<Alphabet>)
        ensures
            res is None <==> clash(self@.union(other@)),
            res matches Some(l) ==> l@ == self@.union(other@),
    {
        let mut list = copy_all(&self.0);
        crate::listset::add_all(&mut list, &other.0);
        let joined = Alphabet(list);
        if joined.clashes() {
            None
        } else {
            Some(joined)
        }
    }
}

/// A conjunction of formulae, as the set of its members.
#[derive(Debug)]
pub struct Conjuction(pub Vec<PhiOp>);

impl View for Conjuction {
    type V = Set<Ltl>;

    open spec fn view(&self) -> Set<Ltl> {
        elems(self.0@)
    }
}

impl Element for Conjuction {
    type Model = Set<Ltl>;

    open spec fn elem(&self) -> Set<Ltl> {
        self@
    }

    fn eq_elem(&self, other: &Conjuction) -> (res: bool) {
        same_elems(&self.0, &other.0)
    }

    fn copy_elem(&self) -> (res: Conjuction) {
        Conjuction(copy_all(&self.0))
    }
}

/// The members of a conjunction: what is joined by the outermost
/// conjunctions of a formula.
pub open spec fn flat(f: Ltl) -> Set<Ltl>
    decreases f,
{
    match f {
        Ltl::And(l, r) => flat(*l).union(flat(*r)),
        _ => Set::<Ltl>::empty().insert(f),
    }
}

/// All conjunctions of a member of `l` with a member of `r`.
pub open spec fn conj_all(l: Set<Ltl>, r: Set<Ltl>) -> Set<Ltl> {
    Set::new(|f: Ltl| exists|a: Ltl, b: Ltl| l.contains(a) && r.contains(b) && f == #[trigger] conj(a, b))
}

/// The lifting of a formula into a set of conjunctions: a disjunction gives
/// what both sides give, a conjunction gives each conjunction of what the
/// sides give, any other formula gives itself.
pub open spec fn bar(f: Ltl) -> Set<Ltl>
    decreases f,
{
    match f {
        Ltl::Or(l, r) => bar(*l).union(bar(*r)),
        Ltl::And(l, r) => conj_all(bar(*l), bar(*r)),
        _ => Set::<Ltl>::empty().insert(f),
    }
}

impl And {
    /// The members of the conjunction that `phi` is.
    pub fn flatten(phi: &PhiOp) -> (res: Vec<PhiOp>)
        ensures
            elems(res@) == flat(phi@),
            distinct(res@),
        decreases phi,
    {
        match phi {
            PhiOp::And(and) => {
                let mut res = And::flatten(&and.left_phi);
                let right = And::flatten(&and.right_phi);
                crate::listset::add_all(&mut res, &right);
                res
            },
            _ => {
                let mut res: Vec<PhiOp> = Vec::new();
                assert(elems(res@) =~= Set::<Ltl>::empty());
                put(&mut res, phi.duplicate());
                res
            },
        }
    }
}

/// The lifting of `phi` into a set of conjunctions.
pub fn bar_op(phi: &PhiOp) -> (res: Vec<PhiOp>)
    ensures
        elems(res@) == bar(phi@),
        distinct(res@),
    decreases phi,
{
    match phi {
        PhiOp::Or(or) => {
            let mut res = bar_op(&or.left_phi);
            let right = bar_op(&or.right_phi);
            crate::listset::add_all(&mut res, &right);
            res
        },
        PhiOp::And(and) => {
            let left = bar_op(&and.left_phi);
            let right = bar_op(&and.right_phi);
            let mut res: Vec<PhiOp> = Vec::new();
            let mut i: usize = 0;
            while i < left.len()
                invariant
                    i <= left@.len(),
                    distinct(res@),
                    forall|f: Ltl|
                        occurs(res@, f) <==> exists|a: int, b: int|
                            0 <= a < i && 0 <= b < right@.len() && f == #[trigger] conj(
                                left@[a]@,
                                right@[b]@,
                            ),
                decreases left@.len() - i,
            {
                let mut j: usize = 0;
                while j < right.len()
                    invariant
                        i < left@.len(),
                        j <= right@.len(),
                        distinct(res@),
                        forall|f: Ltl|
                            occurs(res@, f) <==> exists|a: int, b: int|
                                (0 <= a < i && 0 <= b < right@.len() || a == i && 0 <= b < j) && f
                                    == #[trigger] conj(left@[a]@, right@[b]@),
                    decreases right@.len() - j,
                {
                    let both = And::create(left[i].duplicate(), right[j].duplicate());
                    let ghost before = res@;
                    proof {
                        lemma_push_elems(before, both);
                    }
                    put(&mut res, both);
                    proof {
                        assert forall|f: Ltl| occurs(res@, f) <==> exists|a: int, b: int|
                            (0 <= a < i && 0 <= b < right@.len() || a == i && 0 <= b < j + 1) && f
                                == #[trigger] conj(left@[a]@, right@[b]@) by {
                            assert(elems(res@).contains(f) <==> elems(before).insert(both@).contains(f));
                            assert(occurs(res@, f) <==> occurs(before, f) || f == both@);
                            if f == both@ {
                                assert(f == conj(left@[i as int]@, right@[j as int]@));
                            }
                        }
                    }
                    j = j + 1;
                }
                i = i + 1;
            }
            proof {
                let l = bar(and.left_phi@);
                let r = bar(and.right_phi@);
                assert forall|f: Ltl| elems(res@).contains(f) <==> conj_all(l, r).contains(f) by {
                    if elems(res@).contains(f) {
                        let (a, b) = choose|a: int, b: int|
                            0 <= a < left@.len() && 0 <= b < right@.len() && f == #[trigger] conj(
                                left@[a]@,
                                right@[b]@,
                            );
                        assert(occurs(left@, left@[a].elem()));
                        assert(occurs(right@, right@[b].elem()));
                        assert(l.contains(left@[a]@) && r.contains(right@[b]@));
                    }
                    if conj_all(l, r).contains(f) {
                        let (x, y) = choose|x: Ltl, y: Ltl| l.contains(x) && r.contains(y) && f == #[trigger] conj(x, y);
                        let a = choose|a: int| 0 <= a < left@.len() && (#[trigger] left@[a]).elem() == x;
                        let b = choose|b: int| 0 <= b < right@.len() && (#[trigger] right@[b]).elem() == y;
                        assert(f == conj(left@[a]@, right@[b]@));
                    }
                }
                assert(elems(res@) =~= bar(phi@));
            }
            res
        },
        _ => {
            let mut res: Vec<PhiOp> = Vec::new();
            assert(elems(res@) =~= Set::<Ltl>::empty());
            put(&mut res, phi.duplicate());
            res
        },
    }
}

/// The set with the one member `f`.
pub open spec fn single(f: Ltl) -> Set<Ltl> {
    Set::<Ltl>::empty().insert(f)
}

/// A member of a conjunction is no conjunction: it is all of its own
/// conjunction.
pub proof fn lemma_flat_member(f: Ltl, m: Ltl)
    requires
        flat(f).contains(m),
    ensures
        !(m is And),
        flat(m) == single(m),
    decreases f,
{
    match f {
        Ltl::And(l, r) => {
            if flat(*l).contains(m) {
                lemma_flat_member(*l, m);
            } else {
                lemma_flat_member(*r, m);
            }
        },
        _ => {},
    }
}

impl Conjuction {
    /// The member that comes first in the order of formulae; none in an
    /// empty conjunction.
    pub fn first(&self) -> (res: Option<&PhiOp>)
        ensures
            res is None <==> self.0@.len() == 0,
            res matches Some(m) ==> self@.contains(m@) && forall|f: Ltl|
                self@.contains(f) ==> crate::ltl::formula::order(m@, f) <= 0,
    {
        if self.0.len() == 0 {
            return None;
        }
        let mut best: usize = 0;
        let mut i: usize = 1;
        proof {
            crate::ltl::formula::lemma_order_zero(self.0@[0]@, self.0@[0]@);
        }
        while i < self.0.len()
            invariant
                1 <= i <= self.0@.len(),
                best < i,
                forall|j: int|
                    0 <= j < i ==> crate::ltl::formula::order(self.0@[best as int]@, (#[trigger] self.0@[j])@)
                        <= 0,
            decreases self.0@.len() - i,
        {
            if self.0[i].compare(&self.0[best]) < 0 {
                proof {
                    crate::ltl::formula::lemma_order_zero(self.0@[i as int]@, self.0@[i as int]@);
                    assert forall|j: int| 0 <= j < i + 1 implies crate::ltl::formula::order(
                        self.0@[i as int]@,
                        (#[trigger] self.0@[j])@,
                    ) <= 0 by {
                        if j < i {
                            crate::ltl::formula::lemma_order_chain(
                                self.0@[i as int]@,
                                self.0@[best as int]@,
                                self.0@[j]@,
                            );
                        }
                    }
                }
                best = i;
            } else {
                proof {
                    crate::ltl::formula::lemma_order_flip(self.0@[i as int]@, self.0@[best as int]@);
                }
            }
            i = i + 1;
        }
        proof {
            assert(occurs(self.0@, self.0@[best as int].elem()));
            assert forall|f: Ltl| self@.contains(f) implies crate::ltl::formula::order(
                self.0@[best as int]@,
                f,
            ) <= 0 by {
                let j = choose|j: int| 0 <= j < self.0@.len() && (#[trigger] self.0@[j]).elem() == f;
                assert(self.0@[j]@ == f);
            }
        }
        Some(&self.0[best])
    }
}

/// A transition of an automaton whose states are numbered: the label under
/// which it is taken, and the state to which it leads.
#[derive(Debug)]
pub struct SimpleTransition {
    pub props: Alphabet,
    pub target: usize,
}

impl Element for SimpleTransition {
    type Model = (Set<Ltl>, usize);

    open spec fn elem(&self) -> (Set<Ltl>, usize) {
        (self.props@, self.target)
    }

    fn eq_elem(&self, other: &SimpleTransition) -> (res: bool) {
        self.props.eq_elem(&other.props) && self.target == other.target
    }

    fn copy_elem(&self) -> (res: SimpleTransition) {
        SimpleTransition { props: self.props.copy_elem(), target: self.target }
    }
}

/// A list of transitions, taken as the set of its members: the transitions
/// that leave one state.
#[derive(Debug)]
pub struct Outgoing(pub Vec<SimpleTransition>);

impl Element for Outgoing {
    type Model = Set<(Set<Ltl>, usize)>;

    open spec fn elem(&self) -> Set<(Set<Ltl>, usize)> {
        elems(self.0@)
    }

    fn eq_elem(&self, other: &Outgoing) -> (res: bool) {
        same_elems(&self.0, &other.0)
    }

    fn copy_elem(&self) -> (res: Outgoing) {
        Outgoing(copy_all(&self.0))
    }
}

/// The place of the first member of the list that stands for the same as
/// member `i`.
pub open spec fn first_like<T: Element>(v: Seq<T>, i: int) -> int {
    choose|j: int|
        0 <= j <= i && (#[trigger] v[j]).elem() == v[i].elem() && forall|k: int|
            0 <= k < j ==> (#[trigger] v[k]).elem() != v[i].elem()
}

/// Member `i` stands for something that no member before it stands for.
pub open spec fn leads_class<T: Element>(v: Seq<T>, i: int) -> bool {
    forall|k: int| 0 <= k < i ==> (#[trigger] v[k]).elem() != v[i].elem()
}

/// The number of members before `i` that stand for something new.
pub open spec fn classes_before<T: Element>(v: Seq<T>, i: int) -> int
    decreases i,
{
    if i <= 0 {
        0
    } else {
        classes_before(v, i - 1) + if leads_class(v, i - 1) {
            1int
        } else {
            0int
        }
    }
}

/// The name that the renaming gives to member `i`: members that stand for
/// the same get one name, and the names are the numbers from one on, in the
/// order in which what they stand for occurs first.
pub open spec fn name_of<T: Element>(v: Seq<T>, i: int) -> int {
    classes_before(v, first_like(v, i)) + 1
}

pub proof fn lemma_classes_bound<T: Element>(v: Seq<T>, i: int)
    requires
        0 <= i <= v.len(),
    ensures
        0 <= classes_before(v, i) <= i,
    decreases i,
{
    if i > 0 {
        lemma_classes_bound(v, i - 1);
    }
}

/// Each number from one up to the number of different values is the name
/// of a member that stands for something new.
pub proof fn lemma_names_dense<T: Element>(v: Seq<T>, n: int, c: int)
    requires
        0 <= n <= v.len(),
        1 <= c <= classes_before(v, n),
    ensures
        exists|p: int| 0 <= p < n && leads_class(v, p) && #[trigger] classes_before(v, p) + 1 == c,
    decreases n,
{
    if n > 0 {
        if c <= classes_before(v, n - 1) {
            lemma_names_dense(v, n - 1, c);
            let p = choose|p: int|
                0 <= p < n - 1 && leads_class(v, p) && #[trigger] classes_before(v, p) + 1 == c;
            assert(0 <= p < n && leads_class(v, p) && classes_before(v, p) + 1 == c);
        } else {
            assert(leads_class(v, n - 1));
            assert(classes_before(v, n - 1) + 1 == c);
        }
    }
}

/// A member that stands for something new is the first like itself, and
/// its name is one more than the number of different values before it.
pub proof fn lemma_leader_name<T: Element>(v: Seq<T>, p: int)
    requires
        0 <= p < v.len(),
        leads_class(v, p),
    ensures
        first_like(v, p) == p,
        name_of(v, p) == classes_before(v, p) + 1,
{
    let w = first_like(v, p);
    assert(0 <= p <= p && v[p].elem() == v[p].elem());
    if w < p {
        assert(v[w].elem() != v[p].elem());
    }
}

/// The first member like member `i` stands for something new.
pub proof fn lemma_first_leads<T: Element>(v: Seq<T>, i: int)
    requires
        0 <= i < v.len(),
    ensures
        0 <= first_like(v, i) <= i,
        leads_class(v, first_like(v, i)),
        v[first_like(v, i)].elem() == v[i].elem(),
{
    assert(0 <= i <= i && v[i].elem() == v[i].elem() && (forall|k: int|
        0 <= k < i ==> (#[trigger] v[k]).elem() != v[i].elem()) || exists|j: int|
        0 <= j < i && (#[trigger] v[j]).elem() == v[i].elem()) by {}
    lemma_first_exists(v, i, i);
}

/// Among the members up to `upto` that are like member `i`, one is the
/// first.
pub proof fn lemma_first_exists<T: Element>(v: Seq<T>, i: int, upto: int)
    requires
        0 <= upto <= i < v.len(),
        v[upto].elem() == v[i].elem(),
    ensures
        exists|j: int|
            0 <= j <= i && (#[trigger] v[j]).elem() == v[i].elem() && forall|k: int|
                0 <= k < j ==> (#[trigger] v[k]).elem() != v[i].elem(),
        0 <= first_like(v, i) <= i,
        leads_class(v, first_like(v, i)),
        v[first_like(v, i)].elem() == v[i].elem(),
    decreases upto,
{
    if forall|k: int| 0 <= k < upto ==> (#[trigger] v[k]).elem() != v[i].elem() {
        assert(0 <= upto <= i && v[upto].elem() == v[i].elem());
    } else {
        let k = choose|k: int| 0 <= k < upto && (#[trigger] v[k]).elem() == v[i].elem();
        lemma_first_exists(v, i, k);
    }
    let w = first_like(v, i);
    assert forall|k: int| 0 <= k < w implies (#[trigger] v[k]).elem() != v[w].elem() by {
        assert(v[k].elem() != v[i].elem());
    }
}

/// The largest name is the number of different values.
pub proof fn lemma_name_bound<T: Element>(v: Seq<T>, i: int)
    requires
        0 <= i < v.len(),
    ensures
        1 <= name_of(v, i) <= classes_before(v, v.len() as int),
{
    lemma_first_leads(v, i);
    let w = first_like(v, i);
    lemma_classes_bound(v, w);
    lemma_classes_mono(v, w + 1, v.len() as int);
    assert(classes_before(v, w + 1) == classes_before(v, w) + 1);
}

pub proof fn lemma_classes_mono<T: Element>(v: Seq<T>, i: int, j: int)
    requires
        0 <= i <= j <= v.len(),
    ensures
        classes_before(v, i) <= classes_before(v, j),
    decreases j - i,
{
    if i < j {
        lemma_classes_mono(v, i, j - 1);
    }
}

/// Names the states of an automaton: states with the same outgoing
/// transitions get the same name. The names are the numbers from one up to
/// the number of different sets of transitions.
pub fn get_rename_map<T: Element>(trans_f: &Vec<T>) -> (names: Vec<usize>)
    ensures
        names@.len() == trans_f@.len(),
        forall|i: int| 0 <= i < names@.len() ==> (#[trigger] names@[i]) == name_of(trans_f@, i),
        forall|i: int| 0 <= i < names@.len() ==> 1 <= (#[trigger] names@[i]) <= i + 1,
        forall|i: int, j: int|
            0 <= i < names@.len() && 0 <= j < names@.len() ==> ((#[trigger] names@[i]
                == #[trigger] names@[j]) <==> trans_f@[i].elem() == trans_f@[j].elem()),
{
    let n = trans_f.len();
    let mut names: Vec<usize> = Vec::new();
    let mut index: usize = 0;
    let mut i: usize = 0;
    while i < n
        invariant
            n == trans_f@.len(),
            i <= n,
            names@.len() == i,
            index == classes_before(trans_f@, i as int),
            forall|k: int| 0 <= k < i ==> (#[trigger] names@[k]) == name_of(trans_f@, k),
            forall|k: int| 0 <= k < i ==> 1 <= (#[trigger] names@[k]) <= index,
            forall|k: int| 0 <= k < i ==> (#[trigger] names@[k]) <= k + 1,
            forall|k: int, l: int|
                0 <= k < i && 0 <= l < i ==> ((#[trigger] names@[k] == #[trigger] names@[l])
                    <==> trans_f@[k].elem() == trans_f@[l].elem()),
        decreases n - i,
    {
        let mut found: Option<usize> = None;
        let mut j: usize = 0;
        while j < i
            invariant
                n == trans_f@.len(),
                i < n,
                j <= i,
                found is None ==> forall|k: int| 0 <= k < j ==> (#[trigger] trans_f@[k]).elem()
                    != trans_f@[i as int].elem(),
                found matches Some(at) ==> at < i && trans_f@[at as int].elem()
                    == trans_f@[i as int].elem() && forall|k: int|
                    0 <= k < at ==> (#[trigger] trans_f@[k]).elem() != trans_f@[i as int].elem(),
            decreases i - j,
        {
            if found.is_none() && trans_f[j].eq_elem(&trans_f[i]) {
                found = Some(j);
            }
            j = j + 1;
        }
        proof {
            lemma_classes_bound(trans_f@, i as int);
        }
        match found {
            Some(at) => {
                proof {
                    let w = first_like(trans_f@, i as int);
                    assert(0 <= at <= i && trans_f@[at as int].elem() == trans_f@[i as int].elem());
                    if w < at {
                        assert(trans_f@[w].elem() != trans_f@[i as int].elem());
                    }
                    if at < w {
                        assert(trans_f@[at as int].elem() != trans_f@[i as int].elem());
                    }
                    assert(w == at);
                    let wa = first_like(trans_f@, at as int);
                    assert(0 <= at <= at && trans_f@[at as int].elem() == trans_f@[at as int].elem());
                    if wa < at {
                        assert(trans_f@[wa].elem() != trans_f@[i as int].elem());
                    }
                    assert(wa == at);
                    assert(!leads_class(trans_f@, i as int));
                }
                let name = names[at];
                names.push(name);
            },
            None => {
                proof {
                    let w = first_like(trans_f@, i as int);
                    assert(0 <= i <= i && trans_f@[i as int].elem() == trans_f@[i as int].elem());
                    if w < i {
                        assert(trans_f@[w].elem() != trans_f@[i as int].elem());
                    }
                    assert(w == i);
                    assert(leads_class(trans_f@, i as int));
                }
                index = index + 1;
                names.push(index);
            },
        }
        i = i + 1;
    }
    names
}

/// Every transition leads to one of `n` states.
pub open spec fn targets_below(ts: Seq<SimpleTransition>, n: int) -> bool {
    forall|i: int| 0 <= i < ts.len() ==> (#[trigger] ts[i]).target < n
}

/// Every transition of every state leads to one of `n` states.
pub open spec fn closed_below(trans: Seq<Vec<SimpleTransition>>, n: int) -> bool {
    forall|s: int| 0 <= s < trans.len() ==> targets_below((#[trigger] trans[s])@, n)
}

/// Every number is below `n`.
pub open spec fn all_below(v: Seq<usize>, n: int) -> bool {
    forall|i: int| 0 <= i < v.len() ==> (#[trigger] v[i]) < n
}

/// The transitions that leave a state, together with a mark of the state:
/// states are merged where both are the same.
#[derive(Debug)]
pub struct Marked {
    pub out: Vec<SimpleTransition>,
    pub mark: bool,
}

impl Element for Marked {
    type Model = (Set<(Set<Ltl>, usize)>, bool);

    open spec fn elem(&self) -> (Set<(Set<Ltl>, usize)>, bool) {
        (elems(self.out@), self.mark)
    }

    fn eq_elem(&self, other: &Marked) -> (res: bool) {
        same_elems(&self.out, &other.out) && self.mark == other.mark
    }

    fn copy_elem(&self) -> (res: Marked) {
        Marked { out: copy_all(&self.out), mark: self.mark }
    }
}

/// Two states have the same transitions and the same mark.
pub open spec fn same_state(trans: Seq<Vec<SimpleTransition>>, marks: Seq<bool>, a: int, b: int) -> bool {
    elems(trans[a]@) == elems(trans[b]@) && marks[a] == marks[b]
}

/// State `r` is the first state with the transitions and the mark of state
/// `i`.
pub open spec fn first_state_like(
    trans: Seq<Vec<SimpleTransition>>,
    marks: Seq<bool>,
    i: int,
    r: int,
) -> bool {
    &&& 0 <= r <= i
    &&& same_state(trans, marks, r, i)
    &&& forall|k: int| 0 <= k < r ==> !#[trigger] same_state(trans, marks, k, i)
}

/// The transitions `s` with each target replaced by what `to` holds for it.
pub open spec fn led(s: Set<(Set<Ltl>, usize)>, to: Seq<usize>) -> Set<(Set<Ltl>, usize)> {
    Set::new(
        |t: (Set<Ltl>, usize)|
            exists|u: (Set<Ltl>, usize)|
                #[trigger] s.contains(u) && u.1 < to.len() && t == (u.0, to[u.1 as int]),
    )
}

/// Leading one more transition adds what it is led to.
pub proof fn lemma_led_insert(s: Set<(Set<Ltl>, usize)>, u: (Set<Ltl>, usize), to: Seq<usize>)
    requires
        u.1 < to.len(),
    ensures
        led(s.insert(u), to) == led(s, to).insert((u.0, to[u.1 as int])),
{
    let a = led(s.insert(u), to);
    let b = led(s, to).insert((u.0, to[u.1 as int]));
    assert forall|t: (Set<Ltl>, usize)| a.contains(t) <==> b.contains(t) by {
        if a.contains(t) {
            let w = choose|w: (Set<Ltl>, usize)|
                #[trigger] s.insert(u).contains(w) && w.1 < to.len() && t == (w.0, to[w.1 as int]);
            if w != u {
                assert(s.contains(w));
            }
        }
        if b.contains(t) {
            if t == (u.0, to[u.1 as int]) {
                assert(s.insert(u).contains(u));
            } else {
                let w = choose|w: (Set<Ltl>, usize)|
                    #[trigger] s.contains(w) && w.1 < to.len() && t == (w.0, to[w.1 as int]);
                assert(s.insert(u).contains(w));
            }
        }
    }
    assert(a =~= b);
}

/// The transitions with each target replaced by what `to` holds for it.
pub fn retarget(list: &Vec<SimpleTransition>, to: &Vec<usize>) -> (out: Vec<SimpleTransition>)
    requires
        targets_below(list@, to@.len() as int),
    ensures
        elems(out@) == led(elems(list@), to@),
        distinct(out@),
        forall|x: int| 0 <= x < out@.len() ==> occurs(to@, (#[trigger] out@[x]).target),
{
    let mut out: Vec<SimpleTransition> = Vec::new();
    let mut k: usize = 0;
    proof {
        assert(list@.take(0) =~= Seq::<SimpleTransition>::empty());
        assert(elems(out@) =~= led(elems(list@.take(0)), to@));
    }
    while k < list.len()
        invariant
            k <= list@.len(),
            targets_below(list@, to@.len() as int),
            elems(out@) == led(elems(list@.take(k as int)), to@),
            distinct(out@),
            forall|x: int| 0 <= x < out@.len() ==> occurs(to@, (#[trigger] out@[x]).target),
        decreases list@.len() - k,
    {
        let ghost before = out@;
        let t = SimpleTransition { props: list[k].props.copy_elem(), target: to[list[k].target] };
        proof {
            assert(list@.take(k as int + 1) =~= list@.take(k as int).push(list@[k as int]));
            lemma_push_elems(list@.take(k as int), list@[k as int]);
            lemma_led_insert(elems(list@.take(k as int)), list@[k as int].elem(), to@);
            assert(t.elem() == (list@[k as int].props@, to@[list@[k as int].target as int]));
        }
        put(&mut out, t);
        proof {
            assert forall|x: int| 0 <= x < out@.len() implies occurs(
                to@,
                (#[trigger] out@[x]).target,
            ) by {
                if x < before.len() {
                    assert(out@[x] == before[x]);
                } else {
                    assert(to@[list@[k as int].target as int].elem() == out@[x].target);
                }
            }
        }
        k = k + 1;
    }
    proof {
        assert(list@.take(k as int) =~= list@);
    }
    out
}

/// The numbers that `ids` holds for the states in `s`.
pub open spec fn numbers_of(s: Set<usize>, ids: Seq<usize>) -> Set<usize> {
    Set::new(|c: usize| exists|x: usize| #[trigger] s.contains(x) && x < ids.len() && c == ids[x as int])
}

/// The number of one more state is added to the numbers.
pub proof fn lemma_numbers_insert(s: Set<usize>, x: usize, ids: Seq<usize>)
    requires
        x < ids.len(),
    ensures
        numbers_of(s.insert(x), ids) == numbers_of(s, ids).insert(ids[x as int]),
{
    let a = numbers_of(s.insert(x), ids);
    let b = numbers_of(s, ids).insert(ids[x as int]);
    assert forall|c: usize| a.contains(c) <==> b.contains(c) by {
        if a.contains(c) {
            let w = choose|w: usize| #[trigger] s.insert(x).contains(w) && w < ids.len() && c == ids[w as int];
            if w != x {
                assert(s.contains(w));
            }
        }
        if b.contains(c) {
            if c == ids[x as int] {
                assert(s.insert(x).contains(x));
            } else {
                let w = choose|w: usize| #[trigger] s.contains(w) && w < ids.len() && c == ids[w as int];
                assert(s.insert(x).contains(w));
            }
        }
    }
    assert(a =~= b);
}

/// The numbers that `ids` holds for the states of the list.
pub fn renumber_list(list: &Vec<usize>, ids: &Vec<usize>) -> (out: Vec<usize>)
    requires
        all_below(list@, ids@.len() as int),
    ensures
        elems(out@) == numbers_of(elems(list@), ids@),
        distinct(out@),
        forall|x: int| 0 <= x < out@.len() ==> occurs(ids@, #[trigger] out@[x]),
{
    let mut out: Vec<usize> = Vec::new();
    let mut k: usize = 0;
    proof {
        assert(list@.take(0) =~= Seq::<usize>::empty());
        assert(elems(out@) =~= numbers_of(elems(list@.take(0)), ids@));
    }
    while k < list.len()
        invariant
            k <= list@.len(),
            all_below(list@, ids@.len() as int),
            elems(out@) == numbers_of(elems(list@.take(k as int)), ids@),
            distinct(out@),
            forall|x: int| 0 <= x < out@.len() ==> occurs(ids@, #[trigger] out@[x]),
        decreases list@.len() - k,
    {
        let ghost before = out@;
        proof {
            assert(list@.take(k as int + 1) =~= list@.take(k as int).push(list@[k as int]));
            lemma_push_elems(list@.take(k as int), list@[k as int]);
            lemma_numbers_insert(elems(list@.take(k as int)), list@[k as int], ids@);
        }
        put(&mut out, ids[list[k]]);
        proof {
            assert forall|x: int| 0 <= x < out@.len() implies occurs(ids@, #[trigger] out@[x]) by {
                if x < before.len() {
                    assert(out@[x] == before[x]);
                } else {
                    assert(ids@[list@[k as int] as int].elem() == out@[x]);
                }
            }
        }
        k = k + 1;
    }
    proof {
        assert(list@.take(k as int) =~= list@);
    }
    out
}

/// How the states of an automaton are merged and numbered anew.
#[derive(Debug)]
pub struct Merging {
    /// For each state, the first state with the same transitions and mark.
    pub rep: Vec<usize>,
    /// The new number of each state.
    pub ids: Vec<usize>,
    /// Whether the state is the first of those that were merged into one.
    pub kept: Vec<bool>,
    /// The number of states that are left.
    pub count: usize,
    /// For each new number, the first state that has it.
    pub origin: Vec<usize>,
}

impl Merging {
    /// The merging is that of the automaton with transitions `trans` and
    /// marks `marks`. Each state is first replaced by the first state with
    /// the same transitions and mark. Two states then get one number where
    /// they have the same mark and the transitions of their replacements,
    /// led to the replacements, are the same. The numbers are given from
    /// zero on, in the order in which the states come.
    pub open spec fn merges(&self, trans: Seq<Vec<SimpleTransition>>, marks: Seq<bool>) -> bool {
        let n = trans.len();
        let rep = self.rep@;
        let ids = self.ids@;
        let kept = self.kept@;
        &&& rep.len() == n && ids.len() == n && kept.len() == n
        &&& self.origin@.len() == self.count
        &&& all_below(ids, self.count as int)
        &&& all_below(self.origin@, n as int)
        &&& forall|i: int| 0 <= i < n ==> first_state_like(trans, marks, i, (#[trigger] rep[i]) as int)
        &&& forall|i: int, j: int|
            0 <= i < n && 0 <= j < n ==> ((#[trigger] ids[i] == #[trigger] ids[j]) <==> marks[i]
                == marks[j] && led(elems(trans[rep[i] as int]@), rep) == led(
                elems(trans[rep[j] as int]@),
                rep,
            ))
        &&& forall|i: int|
            0 <= i < n ==> (#[trigger] kept[i] <==> forall|k: int| 0 <= k < i ==> #[trigger] ids[k] != ids[i])
        &&& forall|c: int|
            0 <= c < self.count ==> kept[(#[trigger] self.origin@[c]) as int] && ids[self.origin@[c] as int]
                == c
        &&& forall|i: int, j: int|
            0 <= i < j < n && kept[i] && kept[j] ==> #[trigger] ids[i] < #[trigger] ids[j]
    }
}

/// The first state like each state.
fn first_states(trans: &Vec<Vec<SimpleTransition>>, marks: &Vec<bool>) -> (rep: Vec<usize>)
    requires
        trans@.len() == marks@.len(),
    ensures
        rep@.len() == trans@.len(),
        forall|i: int|
            0 <= i < rep@.len() ==> first_state_like(trans@, marks@, i, (#[trigger] rep@[i]) as int),
{
    let n = trans.len();
    let mut rep: Vec<usize> = Vec::new();
    let mut i: usize = 0;
    while i < n
        invariant
            n == trans@.len(),
            n == marks@.len(),
            i <= n,
            rep@.len() == i,
            forall|j: int|
                0 <= j < i ==> first_state_like(trans@, marks@, j, (#[trigger] rep@[j]) as int),
        decreases n - i,
    {
        let mut r: usize = 0;
        while r < i && !(same_elems(&trans[r], &trans[i]) && marks[r] == marks[i])
            invariant
                n == trans@.len(),
                n == marks@.len(),
                i < n,
                r <= i,
                forall|k: int| 0 <= k < r ==> !#[trigger] same_state(trans@, marks@, k, i as int),
            decreases i - r,
        {
            r = r + 1;
        }
        rep.push(r);
        i = i + 1;
    }
    rep
}

/// The states that are their own replacements are set in a row: `place`
/// gives the place of each in the row, and `source` the state at each place.
pub open spec fn in_a_row(rep: Seq<usize>, place: Seq<usize>, source: Seq<usize>) -> bool {
    let n = rep.len();
    let m = source.len();
    &&& place.len() == n
    &&& forall|p: int|
        0 <= p < m ==> (#[trigger] source[p]) < n && rep[source[p] as int] == source[p]
            && place[source[p] as int] == p
    &&& forall|j: int|
        0 <= j < n && rep[j] == j ==> (#[trigger] place[j]) < m && source[place[j] as int] == j
    &&& forall|p: int, q: int| 0 <= p < q < m ==> #[trigger] source[p] < #[trigger] source[q]
}

/// The states that are their own replacements, in their order, each with
/// its transitions led to the replacements and with its mark.
fn survivors(trans: &Vec<Vec<SimpleTransition>>, marks: &Vec<bool>, rep: &Vec<usize>) -> (res: (
    Vec<Marked>,
    Vec<usize>,
    Vec<usize>,
))
    requires
        trans@.len() == marks@.len(),
        trans@.len() == rep@.len(),
        closed_below(trans@, trans@.len() as int),
    ensures
        res.0@.len() == res.2@.len(),
        in_a_row(rep@, res.1@, res.2@),
        forall|p: int|
            0 <= p < res.0@.len() ==> (#[trigger] res.0@[p]).elem() == (
                led(elems(trans@[res.2@[p] as int]@), rep@),
                marks@[res.2@[p] as int],
            ),
{
    let n = trans.len();
    let mut left: Vec<Marked> = Vec::new();
    let mut place: Vec<usize> = Vec::new();
    let mut source: Vec<usize> = Vec::new();
    let mut i: usize = 0;
    while i < n
        invariant
            n == trans@.len(),
            n == marks@.len(),
            n == rep@.len(),
            closed_below(trans@, n as int),
            i <= n,
            place@.len() == i,
            left@.len() == source@.len(),
            left@.len() <= i,
            forall|p: int|
                0 <= p < source@.len() ==> (#[trigger] source@[p]) < i && rep@[source@[p] as int]
                    == source@[p] && place@[source@[p] as int] == p,
            forall|j: int|
                0 <= j < i && rep@[j] == j ==> (#[trigger] place@[j]) < source@.len()
                    && source@[place@[j] as int] == j,
            forall|p: int, q: int|
                0 <= p < q < source@.len() ==> #[trigger] source@[p] < #[trigger] source@[q],
            forall|p: int|
                0 <= p < left@.len() ==> (#[trigger] left@[p]).elem() == (
                    led(elems(trans@[source@[p] as int]@), rep@),
                    marks@[source@[p] as int],
                ),
        decreases n - i,
    {
        if rep[i] == i {
            assert(targets_below(trans@[i as int]@, n as int));
            let out = retarget(&trans[i], rep);
            place.push(left.len());
            source.push(i);
            left.push(Marked { out, mark: marks[i] });
        } else {
            place.push(0);
        }
        i = i + 1;
    }
    (left, place, source)
}

/// The largest of the names.
fn largest_name(names: &Vec<usize>) -> (count: usize)
    ensures
        forall|p: int| 0 <= p < names@.len() ==> (#[trigger] names@[p]) <= count,
        count == 0 || exists|p: int| 0 <= p < names@.len() && #[trigger] names@[p] == count,
{
    let mut count: usize = 0;
    let mut p: usize = 0;
    while p < names.len()
        invariant
            p <= names@.len(),
            forall|j: int| 0 <= j < p ==> (#[trigger] names@[j]) <= count,
            count == 0 || exists|j: int| 0 <= j < p && #[trigger] names@[j] == count,
        decreases names@.len() - p,
    {
        if names[p] > count {
            count = names[p];
        }
        p = p + 1;
    }
    count
}

/// Whether no name before place `p` is the name at place `p`.
fn first_with(names: &Vec<usize>, p: usize) -> (res: bool)
    requires
        p < names@.len(),
    ensures
        res == forall|k: int| 0 <= k < p ==> (#[trigger] names@[k]) != names@[p as int],
{
    let mut k: usize = 0;
    while k < p
        invariant
            k <= p,
            p < names@.len(),
            forall|j: int| 0 <= j < k ==> (#[trigger] names@[j]) != names@[p as int],
        decreases p - k,
    {
        if names[k] == names[p] {
            return false;
        }
        k = k + 1;
    }
    true
}

/// The numbers of the states are one less than the names of their
/// replacements in the row, and a state is kept where it is its own
/// replacement and no place before its own has its name.
pub open spec fn numbered(
    names: Seq<usize>,
    rep: Seq<usize>,
    place: Seq<usize>,
    ids: Seq<usize>,
    kept: Seq<bool>,
    upto: int,
) -> bool {
    &&& forall|j: int| 0 <= j < upto ==> (#[trigger] ids[j]) + 1 == names[place[rep[j] as int] as int]
    &&& forall|j: int|
        0 <= j < upto ==> (#[trigger] kept[j] <==> rep[j] == j && forall|k: int|
            0 <= k < place[j] ==> #[trigger] names[k] != names[place[j] as int])
}

/// The replacement of a state is its own replacement.
proof fn lemma_rep_settled(trans: Seq<Vec<SimpleTransition>>, marks: Seq<bool>, rep: Seq<usize>, i: int)
    requires
        rep.len() == trans.len(),
        0 <= i < rep.len(),
        forall|j: int| 0 <= j < rep.len() ==> first_state_like(trans, marks, j, (#[trigger] rep[j]) as int),
    ensures
        rep[i] <= i,
        rep[rep[i] as int] == rep[i],
        marks[rep[i] as int] == marks[i],
{
    let r = rep[i] as int;
    assert(first_state_like(trans, marks, i, r));
    let rr = rep[r] as int;
    assert(first_state_like(trans, marks, r, rr));
    if rr < r {
        assert(same_state(trans, marks, rr, i));
    }
}

/// A kept state is the first with its number, and the other way round.
proof fn lemma_kept_first(
    trans: Seq<Vec<SimpleTransition>>,
    marks: Seq<bool>,
    names: Seq<usize>,
    rep: Seq<usize>,
    place: Seq<usize>,
    source: Seq<usize>,
    ids: Seq<usize>,
    kept: Seq<bool>,
    i: int,
)
    requires
        rep.len() == trans.len(),
        ids.len() == rep.len(),
        kept.len() == rep.len(),
        names.len() == source.len(),
        0 <= i < rep.len(),
        forall|j: int| 0 <= j < rep.len() ==> first_state_like(trans, marks, j, (#[trigger] rep[j]) as int),
        in_a_row(rep, place, source),
        numbered(names, rep, place, ids, kept, rep.len() as int),
    ensures
        kept[i] <==> forall|k: int| 0 <= k < i ==> #[trigger] ids[k] != ids[i],
{
    lemma_rep_settled(trans, marks, rep, i);
    if kept[i] {
        assert forall|k: int| 0 <= k < i implies #[trigger] ids[k] != ids[i] by {
            lemma_rep_settled(trans, marks, rep, k);
            let a = rep[k] as int;
            assert(place[a] < source.len() && source[place[a] as int] == a);
            assert(place[i] < source.len() && source[place[i] as int] == i);
            if place[a] >= place[i] {
                if place[a] > place[i] {
                    assert(source[place[i] as int] < source[place[a] as int]);
                }
            }
            assert(names[place[a] as int] != names[place[i] as int]);
        }
    }
    if forall|k: int| 0 <= k < i ==> #[trigger] ids[k] != ids[i] {
        let r = rep[i] as int;
        if r != i {
            assert(ids[r] != ids[i]);
        }
        assert forall|k: int| 0 <= k < place[i] implies #[trigger] names[k] != names[place[i] as int] by {
            let a = source[k] as int;
            assert(place[i] < source.len() && source[place[i] as int] == i);
            assert(source[k] < source[place[i] as int]);
            assert(ids[a] != ids[i]);
        }
    }
}

/// Two states have one number where they have the same mark and the
/// transitions of their replacements are led to the same.
proof fn lemma_same_number(
    trans: Seq<Vec<SimpleTransition>>,
    marks: Seq<bool>,
    left: Seq<Marked>,
    names: Seq<usize>,
    rep: Seq<usize>,
    place: Seq<usize>,
    source: Seq<usize>,
    ids: Seq<usize>,
    kept: Seq<bool>,
    i: int,
    j: int,
)
    requires
        rep.len() == trans.len(),
        ids.len() == rep.len(),
        kept.len() == rep.len(),
        names.len() == source.len(),
        left.len() == source.len(),
        0 <= i < rep.len(),
        0 <= j < rep.len(),
        forall|x: int| 0 <= x < rep.len() ==> first_state_like(trans, marks, x, (#[trigger] rep[x]) as int),
        in_a_row(rep, place, source),
        numbered(names, rep, place, ids, kept, rep.len() as int),
        forall|p: int|
            0 <= p < left.len() ==> (#[trigger] left[p]).elem() == (
                led(elems(trans[source[p] as int]@), rep),
                marks[source[p] as int],
            ),
        forall|x: int, y: int|
            0 <= x < names.len() && 0 <= y < names.len() ==> ((#[trigger] names[x] == #[trigger] names[y])
                <==> left[x].elem() == left[y].elem()),
    ensures
        ids[i] == ids[j] <==> marks[i] == marks[j] && led(elems(trans[rep[i] as int]@), rep) == led(
            elems(trans[rep[j] as int]@),
            rep,
        ),
{
    lemma_rep_settled(trans, marks, rep, i);
    lemma_rep_settled(trans, marks, rep, j);
    let a = rep[i] as int;
    let b = rep[j] as int;
    let pa = place[a] as int;
    let pb = place[b] as int;
    assert(pa < source.len() && source[pa] == a);
    assert(pb < source.len() && source[pb] == b);
    assert(ids[i] + 1 == names[pa]);
    assert(ids[j] + 1 == names[pb]);
    assert((names[pa] == names[pb]) <==> left[pa].elem() == left[pb].elem());
    assert(left[pa].elem() == (led(elems(trans[a]@), rep), marks[a]));
    assert(left[pb].elem() == (led(elems(trans[b]@), rep), marks[b]));
}

/// Of two kept states, the earlier has the smaller number.
proof fn lemma_kept_order<T: Element>(
    left: Seq<T>,
    names: Seq<usize>,
    p: int,
    q: int,
)
    requires
        names.len() == left.len(),
        0 <= p < q < left.len(),
        forall|x: int| 0 <= x < names.len() ==> (#[trigger] names[x]) == name_of(left, x),
        forall|x: int, y: int|
            0 <= x < names.len() && 0 <= y < names.len() ==> ((#[trigger] names[x] == #[trigger] names[y])
                <==> left[x].elem() == left[y].elem()),
        forall|k: int| 0 <= k < p ==> #[trigger] names[k] != names[p],
        forall|k: int| 0 <= k < q ==> #[trigger] names[k] != names[q],
    ensures
        names[p] < names[q],
{
    assert forall|k: int| 0 <= k < p implies (#[trigger] left[k]).elem() != left[p].elem() by {
        assert(names[k] != names[p]);
    }
    assert forall|k: int| 0 <= k < q implies (#[trigger] left[k]).elem() != left[q].elem() by {
        assert(names[k] != names[q]);
    }
    lemma_leader_name(left, p);
    lemma_leader_name(left, q);
    lemma_classes_mono(left, p + 1, q);
    assert(classes_before(left, p + 1) == classes_before(left, p) + 1);
}

/// Each name up to the largest is the name of a place that no place before
/// it shares its name with.
proof fn lemma_name_used<T: Element>(left: Seq<T>, names: Seq<usize>, count: int, c: int)
    requires
        names.len() == left.len(),
        forall|x: int| 0 <= x < names.len() ==> (#[trigger] names[x]) == name_of(left, x),
        forall|x: int, y: int|
            0 <= x < names.len() && 0 <= y < names.len() ==> ((#[trigger] names[x] == #[trigger] names[y])
                <==> left[x].elem() == left[y].elem()),
        exists|p: int| 0 <= p < names.len() && #[trigger] names[p] == count,
        1 <= c <= count,
    ensures
        exists|p: int|
            0 <= p < names.len() && #[trigger] names[p] == c && forall|k: int|
                0 <= k < p ==> #[trigger] names[k] != names[p],
{
    let p0 = choose|p: int| 0 <= p < names.len() && #[trigger] names[p] == count;
    lemma_name_bound(left, p0);
    lemma_names_dense(left, left.len() as int, c);
    let p = choose|p: int|
        0 <= p < left.len() && leads_class(left, p) && #[trigger] classes_before(left, p) + 1 == c;
    lemma_leader_name(left, p);
    assert(names[p] == c);
    assert forall|k: int| 0 <= k < p implies #[trigger] names[k] != names[p] by {
        assert(left[k].elem() != left[p].elem());
    }
}

/// The numbers of the states, which of them are kept, and the first state
/// of each number.
fn assign_numbers(
    names: &Vec<usize>,
    rep: &Vec<usize>,
    place: &Vec<usize>,
    count: usize,
    Ghost(source): Ghost<Seq<usize>>,
) -> (res: (Vec<usize>, Vec<bool>, Vec<usize>))
    requires
        names@.len() == source.len(),
        in_a_row(rep@, place@, source),
        forall|x: int| 0 <= x < rep@.len() ==> (#[trigger] rep@[x]) <= x && rep@[rep@[x] as int] == rep@[x],
        forall|j: int| 0 <= j < names@.len() ==> 1 <= (#[trigger] names@[j]) <= count,
    ensures
        res.0@.len() == rep@.len(),
        res.1@.len() == rep@.len(),
        res.2@.len() == count,
        all_below(res.0@, count as int),
        numbered(names@, rep@, place@, res.0@, res.1@, rep@.len() as int),
        forall|j: int| 0 <= j < rep@.len() && res.1@[j] ==> res.2@[(#[trigger] res.0@[j]) as int] == j,
{
    let n = rep.len();
    let mut ids: Vec<usize> = Vec::new();
    let mut kept: Vec<bool> = Vec::new();
    let mut origin: Vec<usize> = Vec::new();
    let mut c: usize = 0;
    while c < count
        invariant
            c <= count,
            origin@.len() == c,
        decreases count - c,
    {
        origin.push(0);
        c = c + 1;
    }
    let mut i: usize = 0;
    while i < n
        invariant
            n == rep@.len(),
            names@.len() == source.len(),
            in_a_row(rep@, place@, source),
            forall|x: int|
                0 <= x < rep@.len() ==> (#[trigger] rep@[x]) <= x && rep@[rep@[x] as int] == rep@[x],
            forall|j: int| 0 <= j < names@.len() ==> 1 <= (#[trigger] names@[j]) <= count,
            i <= n,
            ids@.len() == i,
            kept@.len() == i,
            origin@.len() == count,
            all_below(ids@, count as int),
            numbered(names@, rep@, place@, ids@, kept@, i as int),
            forall|j: int| 0 <= j < i && kept@[j] ==> origin@[(#[trigger] ids@[j]) as int] == j,
        decreases n - i,
    {
        let r = rep[i];
        assert(rep@[r as int] == r);
        assert(place@[r as int] < source.len());
        let name = names[place[r]];
        let id = name - 1;
        let first = r == i && first_with(names, place[i]);
        let ghost old_ids = ids@;
        let ghost old_kept = kept@;
        ids.push(id);
        kept.push(first);
        if first {
            origin.set(id, i);
        }
        proof {
            assert forall|j: int| 0 <= j < i + 1 && kept@[j] implies origin@[(#[trigger] ids@[j]) as int]
                == j by {
                if j < i {
                    assert(ids@[j] == old_ids[j]);
                    assert(kept@[j] == old_kept[j]);
                    if first && old_ids[j] == id {
                        assert(place@[j] < source.len() && source[place@[j] as int] == j);
                        assert(place@[i as int] < source.len() && source[place@[i as int] as int] == i);
                        if place@[j] > place@[i as int] {
                            assert(source[place@[i as int] as int] < source[place@[j] as int]);
                        }
                        assert(names@[place@[j] as int] != names@[place@[i as int] as int]);
                    }
                }
            }
            assert forall|j: int| 0 <= j < i + 1 implies (#[trigger] ids@[j]) + 1
                == names@[place@[rep@[j] as int] as int] by {
                if j < i {
                    assert(ids@[j] == old_ids[j]);
                }
            }
            assert forall|j: int| 0 <= j < i + 1 implies (#[trigger] kept@[j] <==> rep@[j] == j
                && forall|k: int|
                0 <= k < place@[j] ==> #[trigger] names@[k] != names@[place@[j] as int]) by {
                if j < i {
                    assert(kept@[j] == old_kept[j]);
                }
            }
            assert forall|j: int| 0 <= j < ids@.len() implies (#[trigger] ids@[j]) < count by {
                if j < i {
                    assert(ids@[j] == old_ids[j]);
                }
            }
        }
        i = i + 1;
    }
    (ids, kept, origin)
}

/// What is known of the numbers once they are assigned.
#[verifier::opaque]
pub open spec fn assigned(
    trans: Seq<Vec<SimpleTransition>>,
    marks: Seq<bool>,
    left: Seq<Marked>,
    names: Seq<usize>,
    place: Seq<usize>,
    source: Seq<usize>,
    res: Merging,
) -> bool {
    &&& trans.len() == marks.len()
    &&& res.rep@.len() == trans.len()
    &&& res.ids@.len() == trans.len()
    &&& res.kept@.len() == trans.len()
    &&& res.origin@.len() == res.count
    &&& all_below(res.ids@, res.count as int)
    &&& names.len() == source.len()
    &&& left.len() == source.len()
    &&& forall|x: int|
        0 <= x < trans.len() ==> first_state_like(trans, marks, x, (#[trigger] res.rep@[x]) as int)
    &&& in_a_row(res.rep@, place, source)
    &&& numbered(names, res.rep@, place, res.ids@, res.kept@, trans.len() as int)
    &&& forall|p: int|
        0 <= p < left.len() ==> (#[trigger] left[p]).elem() == (
            led(elems(trans[source[p] as int]@), res.rep@),
            marks[source[p] as int],
        )
    &&& forall|x: int| 0 <= x < names.len() ==> (#[trigger] names[x]) == name_of(left, x)
    &&& forall|x: int, y: int|
        0 <= x < names.len() && 0 <= y < names.len() ==> ((#[trigger] names[x] == #[trigger] names[y])
            <==> left[x].elem() == left[y].elem())
    &&& forall|p: int| 0 <= p < names.len() ==> (#[trigger] names[p]) <= res.count
    &&& res.count == 0 || exists|p: int| 0 <= p < names.len() && #[trigger] names[p] == res.count
    &&& forall|j: int|
        0 <= j < trans.len() && res.kept@[j] ==> res.origin@[(#[trigger] res.ids@[j]) as int] == j
}

proof fn lemma_merges_sizes(
    trans: Seq<Vec<SimpleTransition>>,
    marks: Seq<bool>,
    left: Seq<Marked>,
    names: Seq<usize>,
    place: Seq<usize>,
    source: Seq<usize>,
    res: Merging,
)
    requires
        assigned(trans, marks, left, names, place, source, res),
    ensures
        res.rep@.len() == trans.len(),
        res.ids@.len() == trans.len(),
        res.kept@.len() == trans.len(),
        res.origin@.len() == res.count,
        all_below(res.ids@, res.count as int),
        forall|i: int|
            0 <= i < trans.len() ==> first_state_like(trans, marks, i, (#[trigger] res.rep@[i]) as int),
{
    reveal(assigned);
}

proof fn lemma_merges_alike(
    trans: Seq<Vec<SimpleTransition>>,
    marks: Seq<bool>,
    left: Seq<Marked>,
    names: Seq<usize>,
    place: Seq<usize>,
    source: Seq<usize>,
    res: Merging,
)
    requires
        assigned(trans, marks, left, names, place, source, res),
    ensures
        forall|i: int, j: int|
            0 <= i < trans.len() && 0 <= j < trans.len() ==> ((#[trigger] res.ids@[i]
                == #[trigger] res.ids@[j]) <==> marks[i] == marks[j] && led(
                elems(trans[res.rep@[i] as int]@),
                res.rep@,
            ) == led(elems(trans[res.rep@[j] as int]@), res.rep@)),
{
    reveal(assigned);
    assert forall|i: int, j: int| 0 <= i < trans.len() && 0 <= j < trans.len() implies ((
    #[trigger] res.ids@[i] == #[trigger] res.ids@[j]) <==> marks[i] == marks[j] && led(
        elems(trans[res.rep@[i] as int]@),
        res.rep@,
    ) == led(elems(trans[res.rep@[j] as int]@), res.rep@)) by {
        lemma_same_number(trans, marks, left, names, res.rep@, place, source, res.ids@, res.kept@, i, j);
    }
}

proof fn lemma_merges_kept(
    trans: Seq<Vec<SimpleTransition>>,
    marks: Seq<bool>,
    left: Seq<Marked>,
    names: Seq<usize>,
    place: Seq<usize>,
    source: Seq<usize>,
    res: Merging,
)
    requires
        assigned(trans, marks, left, names, place, source, res),
    ensures
        forall|i: int|
            0 <= i < trans.len() ==> (#[trigger] res.kept@[i] <==> forall|k: int|
                0 <= k < i ==> #[trigger] res.ids@[k] != res.ids@[i]),
{
    reveal(assigned);
    assert forall|i: int| 0 <= i < trans.len() implies (#[trigger] res.kept@[i] <==> forall|k: int|
        0 <= k < i ==> #[trigger] res.ids@[k] != res.ids@[i]) by {
        lemma_kept_first(trans, marks, names, res.rep@, place, source, res.ids@, res.kept@, i);
    }
}

/// Each number is that of a kept state, which is the first state of the
/// number.
proof fn lemma_origin_at<T: Element>(
    left: Seq<T>,
    names: Seq<usize>,
    rep: Seq<usize>,
    place: Seq<usize>,
    source: Seq<usize>,
    ids: Seq<usize>,
    kept: Seq<bool>,
    origin: Seq<usize>,
    count: int,
    c: int,
)
    requires
        ids.len() == rep.len(),
        kept.len() == rep.len(),
        names.len() == source.len(),
        left.len() == source.len(),
        in_a_row(rep, place, source),
        numbered(names, rep, place, ids, kept, rep.len() as int),
        forall|x: int| 0 <= x < names.len() ==> (#[trigger] names[x]) == name_of(left, x),
        forall|x: int, y: int|
            0 <= x < names.len() && 0 <= y < names.len() ==> ((#[trigger] names[x] == #[trigger] names[y])
                <==> left[x].elem() == left[y].elem()),
        exists|p: int| 0 <= p < names.len() && #[trigger] names[p] == count,
        forall|j: int| 0 <= j < rep.len() && kept[j] ==> origin[(#[trigger] ids[j]) as int] == j,
        0 <= c < count,
    ensures
        origin[c] < rep.len(),
        kept[origin[c] as int],
        ids[origin[c] as int] == c,
{
    lemma_name_used(left, names, count, c + 1);
    let p = choose|p: int|
        0 <= p < names.len() && #[trigger] names[p] == c + 1 && forall|k: int|
            0 <= k < p ==> #[trigger] names[k] != names[p];
    let j = source[p] as int;
    assert(j < rep.len() && rep[j] == j && place[j] == p);
    assert(ids[j] + 1 == names[place[rep[j] as int] as int]);
    assert(kept[j] <==> rep[j] == j && forall|k: int|
        0 <= k < place[j] ==> #[trigger] names[k] != names[place[j] as int]);
    assert(kept[j]);
    assert(origin[ids[j] as int] == j);
}

/// Each number is that of a kept state, which is the first state of the
/// number.
proof fn lemma_origin_all<T: Element>(
    left: Seq<T>,
    names: Seq<usize>,
    rep: Seq<usize>,
    place: Seq<usize>,
    source: Seq<usize>,
    ids: Seq<usize>,
    kept: Seq<bool>,
    origin: Seq<usize>,
    count: int,
)
    requires
        ids.len() == rep.len(),
        kept.len() == rep.len(),
        names.len() == source.len(),
        left.len() == source.len(),
        origin.len() == count,
        in_a_row(rep, place, source),
        numbered(names, rep, place, ids, kept, rep.len() as int),
        forall|x: int| 0 <= x < names.len() ==> (#[trigger] names[x]) == name_of(left, x),
        forall|x: int, y: int|
            0 <= x < names.len() && 0 <= y < names.len() ==> ((#[trigger] names[x] == #[trigger] names[y])
                <==> left[x].elem() == left[y].elem()),
        count == 0 || exists|p: int| 0 <= p < names.len() && #[trigger] names[p] == count,
        forall|j: int| 0 <= j < rep.len() && kept[j] ==> origin[(#[trigger] ids[j]) as int] == j,
    ensures
        all_below(origin, rep.len() as int),
        forall|c: int| 0 <= c < count ==> kept[(#[trigger] origin[c]) as int] && ids[origin[c] as int] == c,
{
    assert forall|c: int| 0 <= c < count implies (#[trigger] origin[c]) < rep.len() && kept[origin[c] as int]
        && ids[origin[c] as int] == c by {
        lemma_origin_at(left, names, rep, place, source, ids, kept, origin, count, c);
    }
}

proof fn lemma_merges_origin(
    trans: Seq<Vec<SimpleTransition>>,
    marks: Seq<bool>,
    left: Seq<Marked>,
    names: Seq<usize>,
    place: Seq<usize>,
    source: Seq<usize>,
    res: Merging,
)
    requires
        assigned(trans, marks, left, names, place, source, res),
    ensures
        all_below(res.origin@, trans.len() as int),
        forall|c: int|
            0 <= c < res.count ==> res.kept@[(#[trigger] res.origin@[c]) as int]
                && res.ids@[res.origin@[c] as int] == c,
{
    reveal(assigned);
    lemma_origin_all(
        left,
        names,
        res.rep@,
        place,
        source,
        res.ids@,
        res.kept@,
        res.origin@,
        res.count as int,
    );
}

proof fn lemma_merges_order(
    trans: Seq<Vec<SimpleTransition>>,
    marks: Seq<bool>,
    left: Seq<Marked>,
    names: Seq<usize>,
    place: Seq<usize>,
    source: Seq<usize>,
    res: Merging,
)
    requires
        assigned(trans, marks, left, names, place, source, res),
    ensures
        forall|i: int, j: int|
            0 <= i < j < trans.len() && res.kept@[i] && res.kept@[j] ==> #[trigger] res.ids@[i]
                < #[trigger] res.ids@[j],
{
    reveal(assigned);
    assert forall|i: int, j: int|
        0 <= i < j < trans.len() && res.kept@[i] && res.kept@[j] implies #[trigger] res.ids@[i]
        < #[trigger] res.ids@[j] by {
        assert(place[i] < source.len() && source[place[i] as int] == i);
        assert(place[j] < source.len() && source[place[j] as int] == j);
        if place[i] > place[j] {
            assert(source[place[j] as int] < source[place[i] as int]);
        }
        lemma_kept_order(left, names, place[i] as int, place[j] as int);
        assert(res.ids@[i] + 1 == names[place[res.rep@[i] as int] as int]);
        assert(res.ids@[j] + 1 == names[place[res.rep@[j] as int] as int]);
    }
}

/// Merges the states that have the same transitions and the same mark, and
/// numbers what is left. First each state is replaced by the first state
/// like it; then the states that are left, with their transitions led to
/// the replacements, are named by `get_rename_map`, which merges those that
/// have become alike.
#[verifier::rlimit(60)]
pub fn merge_states(trans: &Vec<Vec<SimpleTransition>>, marks: &Vec<bool>) -> (res: Merging)
    requires
        trans@.len() == marks@.len(),
        closed_below(trans@, trans@.len() as int),
    ensures
        res.merges(trans@, marks@),
{
    let rep = first_states(trans, marks);
    let (left, place, source) = survivors(trans, marks, &rep);
    let names = get_rename_map(&left);
    let count = largest_name(&names);
    proof {
        assert forall|x: int| 0 <= x < rep@.len() implies (#[trigger] rep@[x]) <= x
            && rep@[rep@[x] as int] == rep@[x] by {
            lemma_rep_settled(trans@, marks@, rep@, x);
        }
    }
    let (ids, kept, origin) = assign_numbers(&names, &rep, &place, count, Ghost(source@));
    let res = Merging { rep, ids, kept, count, origin };
    proof {
        assert(assigned(trans@, marks@, left@, names@, place@, source@, res)) by {
            reveal(assigned);
        }
        lemma_merges_sizes(trans@, marks@, left@, names@, place@, source@, res);
        lemma_merges_alike(trans@, marks@, left@, names@, place@, source@, res);
        lemma_merges_kept(trans@, marks@, left@, names@, place@, source@, res);
        lemma_merges_origin(trans@, marks@, left@, names@, place@, source@, res);
        lemma_merges_order(trans@, marks@, left@, names@, place@, source@, res);
    }
    res
}

/// The transitions of the automaton after its states were merged: each new
/// state has the transitions of the first state that was given its number,
/// led to the new numbers.
pub fn renumber(trans: &Vec<Vec<SimpleTransition>>, merging: &Merging) -> (res: Vec<
    Vec<SimpleTransition>,
>)
    requires
        closed_below(trans@, trans@.len() as int),
        merging.ids@.len() == trans@.len(),
        all_below(merging.ids@, merging.count as int),
        merging.origin@.len() == merging.count,
        all_below(merging.origin@, trans@.len() as int),
    ensures
        res@.len() == merging.count,
        closed_below(res@, merging.count as int),
        forall|c: int|
            0 <= c < res@.len() ==> elems((#[trigger] res@[c])@) == led(
                elems(trans@[merging.origin@[c] as int]@),
                merging.ids@,
            ) && distinct(res@[c]@),
{
    let mut res: Vec<Vec<SimpleTransition>> = Vec::new();
    let mut c: usize = 0;
    while c < merging.count
        invariant
            c <= merging.count,
            res@.len() == c,
            closed_below(trans@, trans@.len() as int),
            merging.ids@.len() == trans@.len(),
            all_below(merging.ids@, merging.count as int),
            merging.origin@.len() == merging.count,
            all_below(merging.origin@, trans@.len() as int),
            closed_below(res@, merging.count as int),
            forall|x: int|
                0 <= x < res@.len() ==> elems((#[trigger] res@[x])@) == led(
                    elems(trans@[merging.origin@[x] as int]@),
                    merging.ids@,
                ) && distinct(res@[x]@),
        decreases merging.count - c,
    {
        assert(targets_below(trans@[merging.origin@[c as int] as int]@, trans@.len() as int));
        let out = retarget(&trans[merging.origin[c]], &merging.ids);
        assert(targets_below(out@, merging.count as int)) by {
            assert forall|x: int| 0 <= x < out@.len() implies (#[trigger] out@[x]).target
                < merging.count by {
                let y = choose|y: int|
                    0 <= y < merging.ids@.len() && (#[trigger] merging.ids@[y]).elem() == out@[x].target;
                assert(merging.ids@[y] < merging.count);
            }
        }
        let ghost before = res@;
        res.push(out);
        assert(closed_below(res@, merging.count as int)) by {
            assert forall|x: int| 0 <= x < res@.len() implies targets_below(
                (#[trigger] res@[x])@,
                merging.count as int,
            ) by {
                if x < before.len() {
                    assert(targets_below(before[x]@, merging.count as int));
                }
            }
        }
        assert forall|x: int| 0 <= x < res@.len() implies elems((#[trigger] res@[x])@) == led(
            elems(trans@[merging.origin@[x] as int]@),
            merging.ids@,
        ) && distinct(res@[x]@) by {
            if x < before.len() {
                assert(res@[x] == before[x]);
            }
        }
        c = c + 1;
    }
    res
}

} // verus!
