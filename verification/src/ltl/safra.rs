//! Safra trees and the determinisation of a Büchi automaton into a
//! deterministic Rabin automaton.

use crate::listset::{
    add_all, copy_all, distinct, elems, find, lemma_push_elems, member, occurs, put, same_elems,
    Element,
};
use crate::ltl::ba::BA;
use crate::ltl::common::{
    all_below, classes_before, get_rename_map, leads_class, lemma_leader_name, lemma_name_bound,
    lemma_names_dense, name_of, Alphabet, SimpleTransition,
};
use crate::ltl::formula::Ltl;
use vstd::prelude::*;

verus! {

/// What a node of a Safra tree is, mathematically.
pub struct NodeView {
    pub index: usize,
    pub labels: Set<usize>,
    pub children: Seq<NodeView>,
    pub marked: bool,
}

/// A node of a Safra tree: its number, the states of the Büchi automaton
/// that it stands for, its children from the oldest to the youngest, and
/// its mark.
#[derive(Debug, PartialEq, Eq)]
pub struct SafraNode {
    pub index: usize,
    pub labels: Vec<usize>,
    pub children: Vec<SafraNode>,
    pub marked: bool,
}

/// The leaf that stands where a list of children has no member.
pub open spec fn no_node() -> NodeView {
    NodeView { index: 0, labels: Set::empty(), children: Seq::empty(), marked: false }
}

impl SafraNode {
    /// The node as a mathematical value.
    pub open spec fn model(&self) -> NodeView
        decreases self,
    {
        NodeView {
            index: self.index,
            labels: elems(self.labels@),
            children: Seq::new(
                self.children@.len(),
                |i: int|
                    if 0 <= i < self.children@.len() {
                        self.children@[i].model()
                    } else {
                        no_node()
                    },
            ),
            marked: self.marked,
        }
    }
}

impl View for SafraNode {
    type V = NodeView;

    open spec fn view(&self) -> NodeView {
        self.model()
    }
}

/// The views of a list of nodes.
pub open spec fn models(v: Seq<SafraNode>) -> Seq<NodeView> {
    Seq::new(v.len(), |i: int| v[i]@)
}

/// The largest of the first `k` numbers, and zero of none.
pub open spec fn largest(s: Seq<usize>, k: int) -> usize
    decreases k,
{
    if k <= 0 {
        0
    } else if largest(s, k - 1) >= s[k - 1] {
        largest(s, k - 1)
    } else {
        s[k - 1]
    }
}

/// The union of the first `k` sets.
pub open spec fn union_upto(s: Seq<Set<usize>>, k: int) -> Set<usize>
    decreases k,
{
    if k <= 0 {
        Set::empty()
    } else {
        union_upto(s, k - 1).union(s[k - 1])
    }
}

/// The labels of each node of a list.
pub open spec fn labels_of(cs: Seq<NodeView>) -> Seq<Set<usize>> {
    Seq::new(cs.len(), |i: int| cs[i].labels)
}

/// Those of the first `k` nodes whose label is not empty.
pub open spec fn nonempty_upto(cs: Seq<NodeView>, k: int) -> Seq<NodeView>
    decreases k,
{
    if k <= 0 {
        Seq::empty()
    } else if cs[k - 1].labels == Set::<usize>::empty() {
        nonempty_upto(cs, k - 1)
    } else {
        nonempty_upto(cs, k - 1).push(cs[k - 1])
    }
}

/// The node with every mark removed.
pub open spec fn unmark(n: NodeView) -> NodeView
    decreases n,
{
    NodeView {
        index: n.index,
        labels: n.labels,
        children: Seq::new(
            n.children.len(),
            |i: int|
                if 0 <= i < n.children.len() {
                    unmark(n.children[i])
                } else {
                    no_node()
                },
        ),
        marked: false,
    }
}

/// The largest number in the subtree, as the numbering of new nodes takes
/// it: the node's own number where it has no child, else the largest that
/// its children give.
pub open spec fn max_id(n: NodeView) -> usize
    decreases n,
{
    if n.children.len() == 0 {
        n.index
    } else {
        largest(max_ids(n.children), n.children.len() as int)
    }
}

/// What `max_id` gives for each node of a list.
pub open spec fn max_ids(cs: Seq<NodeView>) -> Seq<usize>
    decreases cs,
{
    Seq::new(
        cs.len(),
        |i: int|
            if 0 <= i < cs.len() {
                max_id(cs[i])
            } else {
                0usize
            },
    )
}

/// The number after `m`; the largest number stays.
pub open spec fn number_after(m: usize) -> usize {
    if m == usize::MAX {
        m
    } else {
        (m + 1) as usize
    }
}

/// The node with a new youngest child below each node of the subtrees of
/// its children.
pub open spec fn grow(n: NodeView, acc: Set<usize>) -> NodeView
    decreases n, 0int,
{
    NodeView {
        index: n.index,
        labels: n.labels,
        children: Seq::new(
            n.children.len(),
            |i: int|
                if 0 <= i < n.children.len() {
                    branch(n.children[i], acc)
                } else {
                    no_node()
                },
        ),
        marked: n.marked,
    }
}

/// The node with a new youngest child below it and below each node of its
/// subtree. The new child stands for the states of its parent that are in
/// `acc`, and has the number after the largest of the subtree, the children
/// taken first.
pub open spec fn branch(n: NodeView, acc: Set<usize>) -> NodeView
    decreases n, 1int,
{
    NodeView {
        index: n.index,
        labels: n.labels,
        children: grow(n, acc).children.push(
            NodeView {
                index: number_after(max_id(grow(n, acc))),
                labels: n.labels.intersect(acc),
                children: Seq::empty(),
                marked: false,
            },
        ),
        marked: n.marked,
    }
}

/// The node without the states in `rem`, in its whole subtree.
pub open spec fn strip(n: NodeView, rem: Set<usize>) -> NodeView
    decreases n,
{
    NodeView {
        index: n.index,
        labels: n.labels.difference(rem),
        children: Seq::new(
            n.children.len(),
            |i: int|
                if 0 <= i < n.children.len() {
                    strip(n.children[i], rem)
                } else {
                    no_node()
                },
        ),
        marked: n.marked,
    }
}

/// The node after the horizontal merge: below every node, a child loses,
/// in its whole subtree, the states that an older sibling stands for.
pub open spec fn merge_h(n: NodeView) -> NodeView
    decreases n,
{
    NodeView {
        index: n.index,
        labels: n.labels,
        children: Seq::new(
            n.children.len(),
            |i: int|
                if 0 <= i < n.children.len() {
                    strip(merge_h(n.children[i]), union_upto(labels_of(n.children), i))
                } else {
                    no_node()
                },
        ),
        marked: n.marked,
    }
}

/// The children of a node, each without the nodes of its subtree that
/// stand for no state.
pub open spec fn drop_below(n: NodeView) -> Seq<NodeView>
    decreases n, 0int,
{
    Seq::new(
        n.children.len(),
        |i: int|
            if 0 <= i < n.children.len() {
                drop_empty(n.children[i])
            } else {
                no_node()
            },
    )
}

/// The node without the nodes of its subtree that stand for no state.
pub open spec fn drop_empty(n: NodeView) -> NodeView
    decreases n, 1int,
{
    NodeView {
        index: n.index,
        labels: n.labels,
        children: nonempty_upto(drop_below(n), n.children.len() as int),
        marked: n.marked,
    }
}

/// The node after the vertical merge: a node that stands for exactly the
/// states that its children stand for loses its children and is marked.
pub open spec fn merge_v(n: NodeView) -> NodeView
    decreases n,
{
    if n.children.len() > 0 && n.labels == union_upto(labels_of(n.children), n.children.len() as int) {
        NodeView { index: n.index, labels: n.labels, children: Seq::empty(), marked: true }
    } else {
        NodeView {
            index: n.index,
            labels: n.labels,
            children: Seq::new(
                n.children.len(),
                |i: int|
                    if 0 <= i < n.children.len() {
                        merge_v(n.children[i])
                    } else {
                        no_node()
                    },
            ),
            marked: n.marked,
        }
    }
}

/// The states to which a transition under `symbol`, or under the label
/// that every letter satisfies, leads from a state in `labels`.
pub open spec fn image(trans: Seq<Vec<SimpleTransition>>, symbol: Set<Ltl>, labels: Set<usize>) -> Set<usize> {
    Set::new(
        |t: usize|
            exists|q: usize, i: int|
                q < trans.len() && labels.contains(q) && 0 <= i < trans[q as int]@.len() && taken(
                    #[trigger] trans[q as int]@[i],
                    symbol,
                ) && trans[q as int]@[i].target == t,
    )
}

/// The transition is taken under `symbol`.
pub open spec fn taken(t: SimpleTransition, symbol: Set<Ltl>) -> bool {
    t.props@ == symbol || t.props@ == Set::<Ltl>::empty()
}

/// The node after a step of the automaton under `symbol`, in its whole
/// subtree.
pub open spec fn advance(n: NodeView, trans: Seq<Vec<SimpleTransition>>, symbol: Set<Ltl>) -> NodeView
    decreases n,
{
    NodeView {
        index: n.index,
        labels: image(trans, symbol, n.labels),
        children: Seq::new(
            n.children.len(),
            |i: int|
                if 0 <= i < n.children.len() {
                    advance(n.children[i], trans, symbol)
                } else {
                    no_node()
                },
        ),
        marked: n.marked,
    }
}

/// For each child, the first node of its subtree with number `id`.
pub open spec fn nodes_below(n: NodeView, id: usize) -> Seq<Option<NodeView>>
    decreases n, 0int,
{
    Seq::new(
        n.children.len(),
        |i: int|
            if 0 <= i < n.children.len() {
                node_with(n.children[i], id)
            } else {
                None
            },
    )
}

/// The first node with number `id`, the node itself before its children
/// and an older child before a younger.
pub open spec fn node_with(n: NodeView, id: usize) -> Option<NodeView>
    decreases n, 1int,
{
    if n.index == id {
        Some(n)
    } else {
        first_some(nodes_below(n, id), 0)
    }
}

/// The first of the options from place `k` on that holds a node.
pub open spec fn first_some(s: Seq<Option<NodeView>>, k: int) -> Option<NodeView>
    decreases s.len() - k,
{
    if k < 0 || k >= s.len() {
        None
    } else if s[k] is Some {
        s[k]
    } else {
        first_some(s, k + 1)
    }
}

/// The successor of a tree under `symbol`: the marks are removed, each
/// node gets a child for its final states, every node takes the step,
/// siblings are merged, empty nodes are dropped, and nodes are merged with
/// their children.
pub open spec fn successor(n: NodeView, trans: Seq<Vec<SimpleTransition>>, acc: Set<usize>, symbol: Set<Ltl>) -> NodeView {
    merge_v(drop_empty(merge_h(advance(branch(unmark(n), acc), trans, symbol))))
}

/// The children of a node are the views of its list of children.
pub proof fn lemma_children(n: &SafraNode)
    ensures
        n@.children == models(n.children@),
        n@.children.len() == n.children@.len(),
        n@.index == n.index,
        n@.marked == n.marked,
        n@.labels == elems(n.labels@),
{
    assert(n@.children =~= models(n.children@));
}

/// Whether the list of states is empty as a set.
fn no_labels(labels: &Vec<usize>) -> (res: bool)
    ensures
        res == (elems(labels@) == Set::<usize>::empty()),
{
    let r = labels.len() == 0;
    proof {
        if r {
            assert(elems(labels@) =~= Set::<usize>::empty());
        } else {
            assert(occurs(labels@, labels@[0].elem()));
            assert(elems(labels@).contains(labels@[0]));
        }
    }
    r
}

/// The states of `a` that are in `b`.
fn common(a: &Vec<usize>, b: &Vec<usize>) -> (res: Vec<usize>)
    ensures
        elems(res@) == elems(a@).intersect(elems(b@)),
{
    let mut res: Vec<usize> = Vec::new();
    let mut i: usize = 0;
    while i < a.len()
        invariant
            i <= a@.len(),
            forall|m: usize|
                occurs(res@, m) <==> elems(b@).contains(m) && exists|j: int|
                    0 <= j < i && #[trigger] a@[j] == m,
        decreases a@.len() - i,
    {
        let ghost before = res@;
        if member(b, &a[i]) {
            proof {
                lemma_push_elems(before, a@[i as int]);
            }
            put(&mut res, a[i]);
        }
        proof {
            assert forall|m: usize|
                occurs(res@, m) <==> elems(b@).contains(m) && exists|j: int|
                    0 <= j < i + 1 && #[trigger] a@[j] == m by {
                assert(occurs(before, m) <==> elems(before).contains(m));
                assert(occurs(res@, m) <==> elems(res@).contains(m));
            }
        }
        i = i + 1;
    }
    proof {
        assert forall|m: usize| elems(res@).contains(m) <==> elems(a@).intersect(elems(b@)).contains(
            m,
        ) by {
            if elems(a@).contains(m) {
                let j = choose|j: int| 0 <= j < a@.len() && (#[trigger] a@[j]).elem() == m;
                assert(a@[j] == m);
            }
            if elems(res@).contains(m) {
                let j = choose|j: int| 0 <= j < a@.len() && #[trigger] a@[j] == m;
                assert(a@[j].elem() == m);
            }
        }
        assert(elems(res@) =~= elems(a@).intersect(elems(b@)));
    }
    res
}

/// The states of `a` that are not in `b`.
fn apart(a: &Vec<usize>, b: &Vec<usize>) -> (res: Vec<usize>)
    ensures
        elems(res@) == elems(a@).difference(elems(b@)),
{
    let mut res: Vec<usize> = Vec::new();
    let mut i: usize = 0;
    while i < a.len()
        invariant
            i <= a@.len(),
            forall|m: usize|
                occurs(res@, m) <==> !elems(b@).contains(m) && exists|j: int|
                    0 <= j < i && #[trigger] a@[j] == m,
        decreases a@.len() - i,
    {
        let ghost before = res@;
        if !member(b, &a[i]) {
            proof {
                lemma_push_elems(before, a@[i as int]);
            }
            put(&mut res, a[i]);
        }
        proof {
            assert forall|m: usize|
                occurs(res@, m) <==> !elems(b@).contains(m) && exists|j: int|
                    0 <= j < i + 1 && #[trigger] a@[j] == m by {
                assert(occurs(before, m) <==> elems(before).contains(m));
                assert(occurs(res@, m) <==> elems(res@).contains(m));
            }
        }
        i = i + 1;
    }
    proof {
        assert forall|m: usize| elems(res@).contains(m) <==> elems(a@).difference(elems(b@)).contains(
            m,
        ) by {
            if elems(a@).contains(m) {
                let j = choose|j: int| 0 <= j < a@.len() && (#[trigger] a@[j]).elem() == m;
                assert(a@[j] == m);
            }
            if elems(res@).contains(m) {
                let j = choose|j: int| 0 <= j < a@.len() && #[trigger] a@[j] == m;
                assert(a@[j].elem() == m);
            }
        }
        assert(elems(res@) =~= elems(a@).difference(elems(b@)));
    }
    res
}

impl SafraNode {
    /// A node without children and without a mark.
    pub fn with_labels(labels: Vec<usize>, index: usize) -> (res: SafraNode)
        ensures
            res@ == (NodeView {
                index,
                labels: elems(labels@),
                children: Seq::<NodeView>::empty(),
                marked: false,
            }),
    {
        let res = SafraNode { index, labels, children: Vec::new(), marked: false };
        assert(res@.children =~= Seq::<NodeView>::empty());
        res
    }

    /// A copy of the node with its subtree.
    pub fn duplicate(&self) -> (res: SafraNode)
        ensures
            res@ == self@,
        decreases self,
    {
        let mut children: Vec<SafraNode> = Vec::new();
        let mut i: usize = 0;
        while i < self.children.len()
            invariant
                i <= self.children@.len(),
                children@.len() == i,
                forall|j: int| 0 <= j < i ==> (#[trigger] children@[j])@ == self.children@[j]@,
            decreases self.children@.len() - i,
        {
            children.push(self.children[i].duplicate());
            i = i + 1;
        }
        let res = SafraNode {
            index: self.index,
            labels: copy_all(&self.labels),
            children,
            marked: self.marked,
        };
        proof {
            lemma_children(&res);
            lemma_children(self);
            assert(res@.children =~= self@.children);
        }
        res
    }

    /// Whether two nodes are equal with their subtrees: the same numbers,
    /// states and marks, and the same children in the same order.
    pub fn same(&self, other: &SafraNode) -> (res: bool)
        ensures
            res == (self@ == other@),
        decreases self,
    {
        proof {
            lemma_children(self);
            lemma_children(other);
        }
        if self.index != other.index || self.marked != other.marked || self.children.len()
            != other.children.len() {
            return false;
        }
        if !same_elems(&self.labels, &other.labels) {
            return false;
        }
        let mut i: usize = 0;
        while i < self.children.len()
            invariant
                i <= self.children@.len(),
                self.children@.len() == other.children@.len(),
                self@.children == models(self.children@),
                other@.children == models(other.children@),
                forall|j: int| 0 <= j < i ==> (#[trigger] self.children@[j])@ == other.children@[j]@,
            decreases self.children@.len() - i,
        {
            if !self.children[i].same(&other.children[i]) {
                assert(self@.children[i as int] != other@.children[i as int]);
                return false;
            }
            i = i + 1;
        }
        assert(self@.children =~= other@.children);
        true
    }

    /// The largest number in the subtree, as the numbering of new nodes
    /// takes it.
    pub fn get_max_id(&self) -> (res: usize)
        ensures
            res == max_id(self@),
        decreases self,
    {
        proof {
            lemma_children(self);
        }
        if self.children.len() == 0 {
            return self.index;
        }
        let ghost ids = max_ids(self@.children);
        let mut m: usize = 0;
        let mut i: usize = 0;
        while i < self.children.len()
            invariant
                i <= self.children@.len(),
                self@.children == models(self.children@),
                ids.len() == self.children@.len(),
                forall|j: int| 0 <= j < ids.len() ==> ids[j] == max_id(self.children@[j]@),
                m == largest(ids, i as int),
            decreases self.children@.len() - i,
        {
            let c = self.children[i].get_max_id();
            if c > m {
                m = c;
            }
            i = i + 1;
        }
        m
    }

    /// Takes the states in `rem_labels` from the node.
    pub fn remove_symbol(&mut self, rem_labels: &Vec<usize>)
        ensures
            final(self)@ == (NodeView {
                index: old(self)@.index,
                labels: old(self)@.labels.difference(elems(rem_labels@)),
                children: old(self)@.children,
                marked: old(self)@.marked,
            }),
    {
        proof {
            lemma_children(self);
        }
        let ghost children = self.children@;
        self.labels = apart(&self.labels, rem_labels);
        proof {
            lemma_children(self);
            assert(self.children@ == children);
        }
    }

    /// The node without the states in `rem`, in its whole subtree.
    pub fn stripped(&self, rem: &Vec<usize>) -> (res: SafraNode)
        ensures
            res@ == strip(self@, elems(rem@)),
        decreases self,
    {
        let mut children: Vec<SafraNode> = Vec::new();
        let mut i: usize = 0;
        while i < self.children.len()
            invariant
                i <= self.children@.len(),
                children@.len() == i,
                forall|j: int|
                    0 <= j < i ==> (#[trigger] children@[j])@ == strip(
                        self.children@[j]@,
                        elems(rem@),
                    ),
            decreases self.children@.len() - i,
        {
            children.push(self.children[i].stripped(rem));
            i = i + 1;
        }
        let res = SafraNode {
            index: self.index,
            labels: apart(&self.labels, rem),
            children,
            marked: self.marked,
        };
        proof {
            lemma_children(&res);
            lemma_children(self);
            assert(res@.children =~= strip(self@, elems(rem@)).children);
        }
        res
    }

    /// The node with every mark removed.
    pub fn unmarked(&self) -> (res: SafraNode)
        ensures
            res@ == unmark(self@),
        decreases self,
    {
        let mut children: Vec<SafraNode> = Vec::new();
        let mut i: usize = 0;
        while i < self.children.len()
            invariant
                i <= self.children@.len(),
                children@.len() == i,
                forall|j: int| 0 <= j < i ==> (#[trigger] children@[j])@ == unmark(self.children@[j]@),
            decreases self.children@.len() - i,
        {
            children.push(self.children[i].unmarked());
            i = i + 1;
        }
        let res = SafraNode {
            index: self.index,
            labels: copy_all(&self.labels),
            children,
            marked: false,
        };
        proof {
            lemma_children(&res);
            lemma_children(self);
            assert(res@.children =~= unmark(self@).children);
        }
        res
    }

    /// Removes every mark in the subtree.
    pub fn remove_mark(&mut self)
        ensures
            final(self)@ == unmark(old(self)@),
    {
        let res = self.unmarked();
        *self = res;
    }

    /// The node with a new youngest child below each node of its subtree.
    pub fn branched(&self, acc: &Vec<usize>) -> (res: SafraNode)
        ensures
            res@ == branch(self@, elems(acc@)),
        decreases self,
    {
        let mut children: Vec<SafraNode> = Vec::new();
        let mut i: usize = 0;
        while i < self.children.len()
            invariant
                i <= self.children@.len(),
                children@.len() == i,
                forall|j: int|
                    0 <= j < i ==> (#[trigger] children@[j])@ == branch(
                        self.children@[j]@,
                        elems(acc@),
                    ),
            decreases self.children@.len() - i,
        {
            children.push(self.children[i].branched(acc));
            i = i + 1;
        }
        let mut grown = SafraNode {
            index: self.index,
            labels: copy_all(&self.labels),
            children,
            marked: self.marked,
        };
        let ghost spec_grown = grow(self@, elems(acc@));
        proof {
            lemma_children(&grown);
            lemma_children(self);
            assert(grown@.children =~= spec_grown.children);
            assert(grown@ == spec_grown);
        }
        let finals = common(&self.labels, acc);
        let max = grown.get_max_id();
        let new_id = if max == usize::MAX {
            max
        } else {
            max + 1
        };
        let new_node = SafraNode::with_labels(finals, new_id);
        let ghost before = grown.children@;
        grown.children.push(new_node);
        proof {
            lemma_children(&grown);
            assert(grown@.children =~= spec_grown.children.push(new_node@)) by {
                assert forall|j: int| 0 <= j < grown@.children.len() implies grown@.children[j]
                    == spec_grown.children.push(new_node@)[j] by {
                    if j < before.len() {
                        assert(grown.children@[j] == before[j]);
                    }
                }
            }
        }
        grown
    }

    /// Gives each node of the subtree a new youngest child for its states
    /// in `acc`.
    pub fn branch_finals(&mut self, acc: &Vec<usize>)
        ensures
            final(self)@ == branch(old(self)@, elems(acc@)),
    {
        let res = self.branched(acc);
        *self = res;
    }

    /// The node without the nodes of its subtree that stand for no state.
    pub fn without_empty(&self) -> (res: SafraNode)
        ensures
            res@ == drop_empty(self@),
        decreases self,
    {
        proof {
            lemma_children(self);
        }
        let ghost mapped = drop_below(self@);
        let mut children: Vec<SafraNode> = Vec::new();
        let mut i: usize = 0;
        while i < self.children.len()
            invariant
                i <= self.children@.len(),
                self@.children == models(self.children@),
                mapped.len() == self.children@.len(),
                forall|j: int| 0 <= j < mapped.len() ==> mapped[j] == drop_empty(self.children@[j]@),
                models(children@) == nonempty_upto(mapped, i as int),
            decreases self.children@.len() - i,
        {
            let child = &self.children[i];
            proof {
                lemma_children(child);
            }
            if !no_labels(&child.labels) {
                let kept = child.without_empty();
                let ghost before = children@;
                children.push(kept);
                assert(models(children@) =~= models(before).push(kept@));
            }
            i = i + 1;
        }
        let res = SafraNode {
            index: self.index,
            labels: copy_all(&self.labels),
            children,
            marked: self.marked,
        };
        proof {
            lemma_children(&res);
        }
        res
    }

    /// Drops the nodes of the subtree that stand for no state.
    pub fn remove_empty_nodes(&mut self)
        ensures
            final(self)@ == drop_empty(old(self)@),
    {
        let res = self.without_empty();
        *self = res;
    }

    /// The first node of the subtree with number `id`.
    pub fn get_by_id(&self, id: usize) -> (res: Option<&SafraNode>)
        ensures
            res is Some <==> node_with(self@, id) is Some,
            res matches Some(n) ==> node_with(self@, id) == Some(n@),
        decreases self,
    {
        proof {
            lemma_children(self);
        }
        if self.index == id {
            return Some(self);
        }
        let ghost found = nodes_below(self@, id);
        let n = self.children.len();
        let mut i: usize = 0;
        while i < n
            invariant
                i <= n,
                n == self.children@.len(),
                self@.children == models(self.children@),
                found.len() == n,
                found == nodes_below(self@, id),
                self@.index != id,
                forall|j: int| 0 <= j < n ==> found[j] == node_with(self.children@[j]@, id),
                first_some(found, 0) == first_some(found, i as int),
            decreases n - i,
        {
            let r = self.children[i].get_by_id(id);
            if r.is_some() {
                assert(found[i as int] == node_with(self.children@[i as int]@, id));
                assert(found[i as int] is Some);
                assert(first_some(found, i as int) == found[i as int]);
                assert(node_with(self@, id) == first_some(found, 0));
                return r;
            }
            i = i + 1;
        }
        None
    }
}

impl Element for SafraNode {
    type Model = NodeView;

    open spec fn elem(&self) -> NodeView {
        self@
    }

    fn eq_elem(&self, other: &SafraNode) -> (res: bool) {
        self.same(other)
    }

    fn copy_elem(&self) -> (res: SafraNode) {
        self.duplicate()
    }
}

/// The states to which a transition under `symbol`, or under the label
/// that every letter satisfies, leads from one of the states `labels`.
fn image_of(trans_f: &Vec<Vec<SimpleTransition>>, symbol: &Alphabet, labels: &Vec<usize>) -> (res: Vec<
    usize,
>)
    ensures
        elems(res@) == image(trans_f@, symbol@, elems(labels@)),
{
    let mut res: Vec<usize> = Vec::new();
    let mut a: usize = 0;
    while a < labels.len()
        invariant
            a <= labels@.len(),
            forall|t: usize|
                occurs(res@, t) <==> exists|x: int, i: int|
                    0 <= x < a && labels@[x] < trans_f@.len() && 0 <= i
                        < trans_f@[labels@[x] as int]@.len() && taken(
                        #[trigger] trans_f@[labels@[x] as int]@[i],
                        symbol@,
                    ) && trans_f@[labels@[x] as int]@[i].target == t,
        decreases labels@.len() - a,
    {
        let q = labels[a];
        if q < trans_f.len() {
            let list = &trans_f[q];
            let mut i: usize = 0;
            while i < list.len()
                invariant
                    a < labels@.len(),
                    q == labels@[a as int],
                    q < trans_f@.len(),
                    list@ == trans_f@[q as int]@,
                    i <= list@.len(),
                    forall|t: usize|
                        occurs(res@, t) <==> (exists|x: int, y: int|
                            0 <= x < a && labels@[x] < trans_f@.len() && 0 <= y
                                < trans_f@[labels@[x] as int]@.len() && taken(
                                #[trigger] trans_f@[labels@[x] as int]@[y],
                                symbol@,
                            ) && trans_f@[labels@[x] as int]@[y].target == t) || (exists|y: int|
                            0 <= y < i && taken(#[trigger] list@[y], symbol@) && list@[y].target == t),
                decreases list@.len() - i,
            {
                let t = &list[i];
                let ghost before = res@;
                let hit = t.props.eq_elem(symbol) || t.props.is_full();
                if hit {
                    proof {
                        lemma_push_elems(before, t.target);
                    }
                    put(&mut res, t.target);
                }
                proof {
                    assert forall|w: usize|
                        occurs(res@, w) <==> (exists|x: int, y: int|
                            0 <= x < a && labels@[x] < trans_f@.len() && 0 <= y
                                < trans_f@[labels@[x] as int]@.len() && taken(
                                #[trigger] trans_f@[labels@[x] as int]@[y],
                                symbol@,
                            ) && trans_f@[labels@[x] as int]@[y].target == w) || (exists|y: int|
                            0 <= y < i + 1 && taken(#[trigger] list@[y], symbol@) && list@[y].target
                                == w) by {
                        assert(occurs(before, w) <==> elems(before).contains(w));
                        assert(occurs(res@, w) <==> elems(res@).contains(w));
                        if hit {
                            assert(occurs(res@, w) <==> occurs(before, w) || w == t.target);
                        }
                        if exists|y: int|
                            0 <= y < i + 1 && taken(#[trigger] list@[y], symbol@) && list@[y].target
                                == w {
                            let y = choose|y: int|
                                0 <= y < i + 1 && taken(#[trigger] list@[y], symbol@)
                                    && list@[y].target == w;
                            if y < i {
                                assert(occurs(before, w));
                            }
                        }
                    }
                }
                i = i + 1;
            }
        }
        proof {
            assert forall|t: usize|
                occurs(res@, t) <==> exists|x: int, i: int|
                    0 <= x < a + 1 && labels@[x] < trans_f@.len() && 0 <= i
                        < trans_f@[labels@[x] as int]@.len() && taken(
                        #[trigger] trans_f@[labels@[x] as int]@[i],
                        symbol@,
                    ) && trans_f@[labels@[x] as int]@[i].target == t by {
                if q < trans_f@.len() {
                    if exists|y: int|
                        0 <= y < trans_f@[q as int]@.len() && taken(
                            #[trigger] trans_f@[q as int]@[y],
                            symbol@,
                        ) && trans_f@[q as int]@[y].target == t {
                        let y = choose|y: int|
                            0 <= y < trans_f@[q as int]@.len() && taken(
                                #[trigger] trans_f@[q as int]@[y],
                                symbol@,
                            ) && trans_f@[q as int]@[y].target == t;
                        assert(taken(trans_f@[labels@[a as int] as int]@[y], symbol@));
                    }
                }
            }
        }
        a = a + 1;
    }
    proof {
        let set = elems(labels@);
        assert forall|t: usize| elems(res@).contains(t) <==> image(trans_f@, symbol@, set).contains(
            t,
        ) by {
            if elems(res@).contains(t) {
                let (x, i) = choose|x: int, i: int|
                    0 <= x < labels@.len() && labels@[x] < trans_f@.len() && 0 <= i
                        < trans_f@[labels@[x] as int]@.len() && taken(
                        #[trigger] trans_f@[labels@[x] as int]@[i],
                        symbol@,
                    ) && trans_f@[labels@[x] as int]@[i].target == t;
                assert(occurs(labels@, labels@[x].elem()));
                let q = labels@[x];
                assert(set.contains(q));
                assert(taken(trans_f@[q as int]@[i], symbol@));
            }
            if image(trans_f@, symbol@, set).contains(t) {
                let (q, i) = choose|q: usize, i: int|
                    q < trans_f@.len() && set.contains(q) && 0 <= i < trans_f@[q as int]@.len()
                        && taken(#[trigger] trans_f@[q as int]@[i], symbol@)
                        && trans_f@[q as int]@[i].target == t;
                let x = choose|x: int| 0 <= x < labels@.len() && (#[trigger] labels@[x]).elem() == q;
                assert(taken(trans_f@[labels@[x] as int]@[i], symbol@));
            }
        }
        assert(elems(res@) =~= image(trans_f@, symbol@, set));
    }
    res
}

impl SafraNode {
    /// The node after a step of the automaton under `symbol`, in its whole
    /// subtree.
    pub fn advanced(&self, trans_f: &Vec<Vec<SimpleTransition>>, symbol: &Alphabet) -> (res: SafraNode)
        ensures
            res@ == advance(self@, trans_f@, symbol@),
        decreases self,
    {
        let mut children: Vec<SafraNode> = Vec::new();
        let mut i: usize = 0;
        while i < self.children.len()
            invariant
                i <= self.children@.len(),
                children@.len() == i,
                forall|j: int|
                    0 <= j < i ==> (#[trigger] children@[j])@ == advance(
                        self.children@[j]@,
                        trans_f@,
                        symbol@,
                    ),
            decreases self.children@.len() - i,
        {
            children.push(self.children[i].advanced(trans_f, symbol));
            i = i + 1;
        }
        let res = SafraNode {
            index: self.index,
            labels: image_of(trans_f, symbol, &self.labels),
            children,
            marked: self.marked,
        };
        proof {
            lemma_children(&res);
            lemma_children(self);
            assert(res@.children =~= advance(self@, trans_f@, symbol@).children);
        }
        res
    }

    /// Lets every node of the subtree take the step under `symbol`.
    pub fn powerset(&mut self, trans_f: &Vec<Vec<SimpleTransition>>, symbol: &Alphabet)
        ensures
            final(self)@ == advance(old(self)@, trans_f@, symbol@),
    {
        let res = self.advanced(trans_f, symbol);
        *self = res;
    }

    /// The node after the horizontal merge.
    pub fn merged_h(&self) -> (res: SafraNode)
        ensures
            res@ == merge_h(self@),
        decreases self,
    {
        proof {
            lemma_children(self);
        }
        let mut children: Vec<SafraNode> = Vec::new();
        let mut seen: Vec<usize> = Vec::new();
        assert(elems(seen@) =~= Set::<usize>::empty());
        let mut i: usize = 0;
        while i < self.children.len()
            invariant
                i <= self.children@.len(),
                self@.children == models(self.children@),
                children@.len() == i,
                elems(seen@) == union_upto(labels_of(self@.children), i as int),
                forall|j: int|
                    0 <= j < i ==> (#[trigger] children@[j])@ == strip(
                        merge_h(self.children@[j]@),
                        union_upto(labels_of(self@.children), j),
                    ),
            decreases self.children@.len() - i,
        {
            let child = &self.children[i];
            let merged = child.merged_h();
            children.push(merged.stripped(&seen));
            proof {
                lemma_children(child);
                assert(labels_of(self@.children)[i as int] == elems(child.labels@));
            }
            add_all(&mut seen, &child.labels);
            i = i + 1;
        }
        let res = SafraNode {
            index: self.index,
            labels: copy_all(&self.labels),
            children,
            marked: self.marked,
        };
        proof {
            lemma_children(&res);
            assert(res@.children =~= merge_h(self@).children);
        }
        res
    }

    /// Takes from each child, in its whole subtree, the states that an
    /// older sibling stands for; and so below every node.
    pub fn merge_horizontal(&mut self)
        ensures
            final(self)@ == merge_h(old(self)@),
    {
        let res = self.merged_h();
        *self = res;
    }

    /// The states that the children stand for.
    fn child_labels(&self) -> (res: Vec<usize>)
        ensures
            elems(res@) == union_upto(labels_of(self@.children), self@.children.len() as int),
    {
        proof {
            lemma_children(self);
        }
        let mut res: Vec<usize> = Vec::new();
        assert(elems(res@) =~= Set::<usize>::empty());
        let mut i: usize = 0;
        while i < self.children.len()
            invariant
                i <= self.children@.len(),
                self@.children == models(self.children@),
                elems(res@) == union_upto(labels_of(self@.children), i as int),
            decreases self.children@.len() - i,
        {
            proof {
                lemma_children(&self.children@[i as int]);
                assert(labels_of(self@.children)[i as int] == elems(self.children@[i as int].labels@));
            }
            add_all(&mut res, &self.children[i].labels);
            i = i + 1;
        }
        res
    }

    /// The node after the vertical merge.
    pub fn merged_v(&self) -> (res: SafraNode)
        ensures
            res@ == merge_v(self@),
        decreases self,
    {
        proof {
            lemma_children(self);
        }
        if self.children.len() > 0 {
            let united = self.child_labels();
            if same_elems(&self.labels, &united) {
                let res = SafraNode {
                    index: self.index,
                    labels: copy_all(&self.labels),
                    children: Vec::new(),
                    marked: true,
                };
                proof {
                    lemma_children(&res);
                    assert(res@.children =~= Seq::<NodeView>::empty());
                }
                return res;
            }
        }
        let mut children: Vec<SafraNode> = Vec::new();
        let mut i: usize = 0;
        while i < self.children.len()
            invariant
                i <= self.children@.len(),
                children@.len() == i,
                forall|j: int| 0 <= j < i ==> (#[trigger] children@[j])@ == merge_v(self.children@[j]@),
            decreases self.children@.len() - i,
        {
            children.push(self.children[i].merged_v());
            i = i + 1;
        }
        let res = SafraNode {
            index: self.index,
            labels: copy_all(&self.labels),
            children,
            marked: self.marked,
        };
        proof {
            lemma_children(&res);
            assert(res@.children =~= merge_v(self@).children);
        }
        res
    }

    /// Merges each node that stands for exactly what its children stand
    /// for with them: the children go and the node is marked.
    pub fn merge_vertical(&mut self)
        ensures
            final(self)@ == merge_v(old(self)@),
    {
        let res = self.merged_v();
        *self = res;
    }
}

/// A Safra tree: a state of the deterministic automaton while it is built.
#[derive(Debug, PartialEq, Eq)]
pub struct SafraTree {
    pub root: SafraNode,
}

impl Element for SafraTree {
    type Model = NodeView;

    open spec fn elem(&self) -> NodeView {
        self.root@
    }

    fn eq_elem(&self, other: &SafraTree) -> (res: bool) {
        self.root.same(&other.root)
    }

    fn copy_elem(&self) -> (res: SafraTree) {
        SafraTree { root: self.root.duplicate() }
    }
}

/// A tree that is reached under a symbol.
#[derive(Debug)]
pub struct TreeTransition {
    pub props: Alphabet,
    pub target: SafraTree,
}

impl SafraTree {
    /// The tree of one node, with number one, that stands for `label`.
    pub fn with_root(label: Vec<usize>) -> (res: SafraTree)
        ensures
            res.root@ == (NodeView {
                index: 1,
                labels: elems(label@),
                children: Seq::<NodeView>::empty(),
                marked: false,
            }),
    {
        SafraTree { root: SafraNode::with_labels(label, 1) }
    }

    /// The successor of the tree under each of the symbols.
    pub fn succ_tree(
        &self,
        old_trans_f: &Vec<Vec<SimpleTransition>>,
        acc: &Vec<usize>,
        symbols: &Vec<Alphabet>,
    ) -> (res: Vec<TreeTransition>)
        ensures
            res@.len() == symbols@.len(),
            forall|i: int|
                0 <= i < res@.len() ==> (#[trigger] res@[i]).props@ == symbols@[i]@
                    && res@[i].target.root@ == successor(
                    self.root@,
                    old_trans_f@,
                    elems(acc@),
                    symbols@[i]@,
                ),
    {
        let mut new_tree = self.root.duplicate();
        new_tree.remove_mark();
        new_tree.branch_finals(acc);
        let mut succ_trees: Vec<TreeTransition> = Vec::new();
        let mut i: usize = 0;
        while i < symbols.len()
            invariant
                i <= symbols@.len(),
                new_tree@ == branch(unmark(self.root@), elems(acc@)),
                succ_trees@.len() == i,
                forall|j: int|
                    0 <= j < i ==> (#[trigger] succ_trees@[j]).props@ == symbols@[j]@
                        && succ_trees@[j].target.root@ == successor(
                        self.root@,
                        old_trans_f@,
                        elems(acc@),
                        symbols@[j]@,
                    ),
            decreases symbols@.len() - i,
        {
            let mut new_tree_symbol = new_tree.duplicate();
            new_tree_symbol.powerset(old_trans_f, &symbols[i]);
            new_tree_symbol.merge_horizontal();
            new_tree_symbol.remove_empty_nodes();
            new_tree_symbol.merge_vertical();
            succ_trees.push(
                TreeTransition {
                    props: symbols[i].copy_elem(),
                    target: SafraTree { root: new_tree_symbol },
                },
            );
            i = i + 1;
        }
        succ_trees
    }
}

/// What a transition of the deterministic automaton is taken under: one
/// symbol, or every symbol that has no transition of its own.
#[derive(Debug)]
pub enum DRATransition {
    Symbol(Alphabet),
    Others,
}

/// A transition of the deterministic automaton.
#[derive(Debug)]
pub struct DraEdge {
    pub on: DRATransition,
    pub target: usize,
}

impl DraEdge {
    /// The symbol of the transition; none for the transition of the other
    /// symbols.
    pub open spec fn label(&self) -> Option<Set<Ltl>> {
        match self.on {
            DRATransition::Symbol(a) => Some(a@),
            DRATransition::Others => None,
        }
    }
}

/// A deterministic Rabin automaton with numbered states. A run is accepted
/// if, for one of the pairs in `acc`, it visits the first set finitely
/// often and the second set infinitely often.
#[derive(Debug)]
#[allow(clippy::upper_case_acronyms)]
pub struct DRA {
    pub initial: usize,
    /// The transitions of each state: first the one of the other symbols,
    /// then one for each symbol that has its own.
    pub trans_f: Vec<Vec<DraEdge>>,
    pub acc: Vec<(Vec<usize>, Vec<usize>)>,
    /// The Safra trees that were reached, the tree of the initial states
    /// first.
    pub trees: Vec<SafraTree>,
    /// The state that each tree stands for: trees with the same successors
    /// stand for one state.
    pub names: Vec<usize>,
}

/// The transitions of one state are in order: the first is that of the
/// other symbols, the rest have each a symbol of their own, and all lead
/// to one of `n` states.
pub open spec fn row_ok(row: Seq<DraEdge>, n: int) -> bool {
    &&& row.len() >= 1
    &&& row[0].label() is None
    &&& forall|k: int| 1 <= k < row.len() ==> (#[trigger] row[k]).label() is Some
    &&& forall|k: int, l: int|
        1 <= k < l < row.len() ==> (#[trigger] row[k]).label() != (#[trigger] row[l]).label()
    &&& forall|k: int| 0 <= k < row.len() ==> (#[trigger] row[k]).target < n
}

/// The first place from `k` on at which the transition has symbol `sym`.
pub open spec fn place_of(row: Seq<DraEdge>, sym: Set<Ltl>, k: int) -> Option<int>
    decreases row.len() - k,
{
    if k < 0 || k >= row.len() {
        None
    } else if row[k].label() == Some(sym) {
        Some(k)
    } else {
        place_of(row, sym, k + 1)
    }
}

/// The state to which the transitions `row` lead under `sym`: by the
/// transition of that symbol where there is one, else, and where no symbol
/// is given, by the transition of the other symbols.
pub open spec fn step(row: Seq<DraEdge>, sym: Option<Set<Ltl>>) -> usize {
    match sym {
        None => row[0].target,
        Some(s) => match place_of(row, s, 1) {
            Some(k) => row[k].target,
            None => row[0].target,
        },
    }
}

/// The transition at place `k` is the one that is taken under `sym`.
pub open spec fn fires(row: Seq<DraEdge>, k: int, sym: Option<Set<Ltl>>) -> bool {
    &&& 0 <= k < row.len()
    &&& if k == 0 {
        sym is None || forall|l: int| 1 <= l < row.len() ==> (#[trigger] row[l]).label() != sym
    } else {
        sym is Some && row[k].label() == sym
    }
}

impl DRA {
    /// The number of states.
    pub open spec fn size(&self) -> int {
        self.trans_f@.len() as int
    }

    /// The automaton is in order: its initial state and the states of its
    /// acceptance pairs are states of it, and the transitions of each state
    /// are in order.
    pub open spec fn wf(&self) -> bool {
        &&& self.initial < self.size()
        &&& forall|q: int| 0 <= q < self.size() ==> row_ok((#[trigger] self.trans_f@[q])@, self.size())
        &&& forall|i: int|
            0 <= i < self.acc@.len() ==> all_below((#[trigger] self.acc@[i]).0@, self.size())
                && all_below(self.acc@[i].1@, self.size())
    }

    /// The successor of `state` under `opt_symbol`.
    pub fn delta(&self, state: usize, opt_symbol: Option<&Alphabet>) -> (res: usize)
        requires
            self.wf(),
            state < self.size(),
        ensures
            res == step(
                self.trans_f@[state as int]@,
                match opt_symbol {
                    Some(a) => Some(a@),
                    None => None,
                },
            ),
            res < self.size(),
    {
        let row = &self.trans_f[state];
        assert(row_ok(self.trans_f@[state as int]@, self.size()));
        match opt_symbol {
            None => row[0].target,
            Some(symbol) => {
                let mut k: usize = 1;
                while k < row.len()
                    invariant
                        1 <= k <= row@.len(),
                        opt_symbol == Some(symbol),
                        row@ == self.trans_f@[state as int]@,
                        row_ok(row@, self.size()),
                        place_of(row@, symbol@, 1) == place_of(row@, symbol@, k as int),
                    decreases row@.len() - k,
                {
                    match &row[k].on {
                        DRATransition::Symbol(a) => {
                            if a.eq_elem(symbol) {
                                assert(a.elem() == a@ && symbol.elem() == symbol@);
                                assert(row@[k as int].label() == Some(symbol@));
                                assert(place_of(row@, symbol@, k as int) == Some(k as int));
                                return row[k].target;
                            }
                            assert(a.elem() == a@ && symbol.elem() == symbol@);
                        },
                        DRATransition::Others => {},
                    }
                    k = k + 1;
                }
                row[0].target
            },
        }
    }
}

/// No place from `from` on has symbol `sym` where `place_of` finds none.
pub proof fn lemma_place_none(row: Seq<DraEdge>, sym: Set<Ltl>, from: int, l: int)
    requires
        0 <= from <= l < row.len(),
        place_of(row, sym, from) is None,
    ensures
        row[l].label() != Some(sym),
    decreases l - from,
{
    if from < l {
        lemma_place_none(row, sym, from + 1, l);
    }
}

/// The place that `place_of` finds has symbol `sym`.
pub proof fn lemma_place_found(row: Seq<DraEdge>, sym: Set<Ltl>, from: int)
    requires
        0 <= from,
        place_of(row, sym, from) is Some,
    ensures
        from <= place_of(row, sym, from).unwrap() < row.len(),
        row[place_of(row, sym, from).unwrap()].label() == Some(sym),
    decreases row.len() - from,
{
    if from < row.len() && row[from].label() != Some(sym) {
        lemma_place_found(row, sym, from + 1);
    }
}

/// The automaton is deterministic: in each state and under each symbol,
/// and also where no symbol is given, exactly one transition is taken. It
/// is that of the symbol, or that of the other symbols.
pub proof fn exactly_one_successor(dra: &DRA, q: int, sym: Option<Set<Ltl>>)
    requires
        dra.wf(),
        0 <= q < dra.size(),
    ensures
        exists|k: int|
            #[trigger] fires(dra.trans_f@[q]@, k, sym) && dra.trans_f@[q]@[k].target == step(
                dra.trans_f@[q]@,
                sym,
            ),
        forall|k: int, l: int|
            fires(dra.trans_f@[q]@, k, sym) && fires(dra.trans_f@[q]@, l, sym) ==> k == l,
{
    let row = dra.trans_f@[q]@;
    let n = dra.size();
    assert(row_ok(row, n));
    match sym {
        None => {
            assert(fires(row, 0, sym));
        },
        Some(s) => {
            match place_of(row, s, 1) {
                Some(k) => {
                    lemma_place_found(row, s, 1);
                    assert(fires(row, k, sym));
                },
                None => {
                    assert forall|l: int| 1 <= l < row.len() implies (#[trigger] row[l]).label()
                        != sym by {
                        lemma_place_none(row, s, 1, l);
                    }
                    assert(fires(row, 0, sym));
                },
            }
        },
    }
    assert forall|k: int, l: int| fires(row, k, sym) && fires(row, l, sym) implies k == l by {
        if k != l {
            if k == 0 {
                assert(row[l].label() == sym);
            } else if l == 0 {
                assert(row[k].label() == sym);
            } else if k < l {
                assert(row[k].label() != row[l].label());
            } else {
                assert(row[l].label() != row[k].label());
            }
        }
    }
}

/// The successors of a tree, one for each symbol in turn, as places in the
/// list of trees.
#[derive(Debug)]
pub struct Row(pub Vec<usize>);

impl Element for Row {
    type Model = Seq<usize>;

    open spec fn elem(&self) -> Seq<usize> {
        self.0@
    }

    fn eq_elem(&self, other: &Row) -> (res: bool) {
        if self.0.len() != other.0.len() {
            return false;
        }
        let mut i: usize = 0;
        while i < self.0.len()
            invariant
                i <= self.0@.len(),
                self.0@.len() == other.0@.len(),
                forall|j: int| 0 <= j < i ==> self.0@[j] == other.0@[j],
            decreases self.0@.len() - i,
        {
            if self.0[i] != other.0[i] {
                return false;
            }
            i = i + 1;
        }
        assert(self.0@ =~= other.0@);
        true
    }

    fn copy_elem(&self) -> (res: Row) {
        let mut v: Vec<usize> = Vec::new();
        let mut i: usize = 0;
        while i < self.0.len()
            invariant
                i <= self.0@.len(),
                v@.len() == i,
                forall|j: int| 0 <= j < i ==> v@[j] == self.0@[j],
            decreases self.0@.len() - i,
        {
            v.push(self.0[i]);
            i = i + 1;
        }
        assert(v@ =~= self.0@);
        Row(v)
    }
}

/// The symbols of the automaton that ask for something, each once.
fn own_symbols(ba: &BA) -> (res: Vec<Alphabet>)
    ensures
        distinct(res@),
        forall|i: int| 0 <= i < res@.len() ==> (#[trigger] res@[i])@ != Set::<Ltl>::empty(),
        forall|s: Set<Ltl>| occurs(res@, s) <==> s != Set::<Ltl>::empty() && occurs(ba.symbols@, s),
{
    let mut res: Vec<Alphabet> = Vec::new();
    let mut i: usize = 0;
    while i < ba.symbols.len()
        invariant
            i <= ba.symbols@.len(),
            distinct(res@),
            forall|j: int| 0 <= j < res@.len() ==> (#[trigger] res@[j])@ != Set::<Ltl>::empty(),
            forall|s: Set<Ltl>|
                occurs(res@, s) <==> s != Set::<Ltl>::empty() && exists|j: int|
                    0 <= j < i && (#[trigger] ba.symbols@[j]).elem() == s,
        decreases ba.symbols@.len() - i,
    {
        let ghost before = res@;
        let full = ba.symbols[i].is_full();
        if !full {
            let c = ba.symbols[i].copy_elem();
            proof {
                lemma_push_elems(before, c);
            }
            put(&mut res, c);
            assert forall|j: int| 0 <= j < res@.len() implies (#[trigger] res@[j])@ != Set::<
                Ltl,
            >::empty() by {
                if j < before.len() {
                    assert(before[j]@ != Set::<Ltl>::empty());
                }
            }
        }
        proof {
            assert forall|s: Set<Ltl>|
                occurs(res@, s) <==> s != Set::<Ltl>::empty() && exists|j: int|
                    0 <= j < i + 1 && (#[trigger] ba.symbols@[j]).elem() == s by {
                assert(occurs(before, s) <==> elems(before).contains(s));
                assert(occurs(res@, s) <==> elems(res@).contains(s));
                assert(ba.symbols@[i as int].elem() == ba.symbols@[i as int]@);
                if !full {
                    assert(occurs(res@, s) <==> occurs(before, s) || s == ba.symbols@[i as int]@);
                }
            }
        }
        i = i + 1;
    }
    res
}

/// Every row has `width` successors, each one of `n` trees.
pub open spec fn rows_ok(rows: Seq<Row>, width: int, n: int) -> bool {
    forall|i: int|
        0 <= i < rows.len() ==> (#[trigger] rows[i]).0@.len() == width && all_below(rows[i].0@, n)
}

/// Row `i` names the successors of tree `i`, one for each symbol in turn.
pub open spec fn row_follows(
    trees: Seq<SafraTree>,
    row: Seq<usize>,
    i: int,
    ba: &BA,
    symbols: Seq<Alphabet>,
) -> bool {
    forall|k: int|
        0 <= k < row.len() && k < symbols.len() ==> (#[trigger] row[k]) < trees.len()
            && trees[row[k] as int].root@ == successor(
            trees[i].root@,
            ba.transitions@,
            elems(ba.finals@),
            symbols[k]@,
        )
}

/// Tree `j` is the successor of an earlier tree under one of the symbols.
pub open spec fn comes_from(trees: Seq<SafraTree>, j: int, ba: &BA, symbols: Seq<Alphabet>) -> bool {
    exists|i: int, k: int|
        0 <= i < j && 0 <= k < symbols.len() && trees[j].root@ == #[trigger] successor(
            trees[i].root@,
            ba.transitions@,
            elems(ba.finals@),
            symbols[k]@,
        )
}

/// The tree of one node that stands for `labels`.
pub open spec fn root_view(labels: Set<usize>) -> NodeView {
    NodeView { index: 1, labels, children: Seq::<NodeView>::empty(), marked: false }
}

/// The trees that are reached from the tree of the initial states, and for
/// each of them the places of its successors.
fn explore_trees(ba: &BA, symbols: &Vec<Alphabet>) -> (res: (Vec<SafraTree>, Vec<Row>))
    ensures
        res.0@.len() >= 1,
        res.0@.len() == res.1@.len(),
        res.0@[0].root@ == root_view(elems(ba.initials@)),
        distinct(res.0@),
        rows_ok(res.1@, symbols@.len() as int, res.0@.len() as int),
        forall|i: int|
            0 <= i < res.1@.len() ==> row_follows(res.0@, (#[trigger] res.1@[i]).0@, i, ba, symbols@),
        forall|j: int| 1 <= j < res.0@.len() ==> #[trigger] comes_from(res.0@, j, ba, symbols@),
{
    let width = symbols.len();
    let mut trees: Vec<SafraTree> = Vec::new();
    trees.push(SafraTree::with_root(copy_all(&ba.initials)));
    let ghost first = trees@[0];
    let mut rows: Vec<Row> = Vec::new();
    let mut head: usize = 0;
    while head < trees.len()
        invariant
            head <= trees@.len(),
            trees@.len() >= 1,
            trees@[0] == first,
            first.root@ == root_view(elems(ba.initials@)),
            distinct(trees@),
            rows@.len() == head,
            width == symbols@.len(),
            rows_ok(rows@, width as int, trees@.len() as int),
            forall|i: int|
                0 <= i < rows@.len() ==> row_follows(trees@, (#[trigger] rows@[i]).0@, i, ba, symbols@),
            forall|j: int| 1 <= j < trees@.len() ==> #[trigger] comes_from(trees@, j, ba, symbols@),
        decreases usize::MAX - head,
    {
        let succ = trees[head].succ_tree(&ba.transitions, &ba.finals, symbols);
        let ghost this = trees@[head as int];
        let ghost start = trees@;
        let mut row: Vec<usize> = Vec::new();
        let mut i: usize = 0;
        while i < succ.len()
            invariant
                i <= succ@.len(),
                succ@.len() == width,
                width == symbols@.len(),
                head < trees@.len(),
                trees@[head as int] == this,
                trees@[0] == first,
                distinct(trees@),
                start.len() <= trees@.len(),
                forall|x: int| 0 <= x < start.len() ==> trees@[x] == start[x],
                row@.len() == i,
                forall|k: int|
                    0 <= k < i ==> (#[trigger] row@[k]) < trees@.len() && trees@[row@[k] as int].root@
                        == succ@[k].target.root@,
                forall|k: int|
                    0 <= k < succ@.len() ==> (#[trigger] succ@[k]).target.root@ == successor(
                        this.root@,
                        ba.transitions@,
                        elems(ba.finals@),
                        symbols@[k]@,
                    ),
                forall|j: int| 1 <= j < trees@.len() ==> #[trigger] comes_from(trees@, j, ba, symbols@),
            decreases succ@.len() - i,
        {
            let ghost old_trees = trees@;
            let at = match find(&trees, &succ[i].target) {
                Some(at) => at,
                None => {
                    let c = succ[i].target.copy_elem();
                    proof {
                        lemma_push_elems(old_trees, c);
                    }
                    trees.push(c);
                    proof {
                        assert forall|j: int| 1 <= j < trees@.len() implies #[trigger] comes_from(
                            trees@,
                            j,
                            ba,
                            symbols@,
                        ) by {
                            if j < old_trees.len() {
                                assert(comes_from(old_trees, j, ba, symbols@));
                                let (a, b) = choose|a: int, b: int|
                                    0 <= a < j && 0 <= b < symbols@.len() && old_trees[j].root@
                                        == #[trigger] successor(
                                        old_trees[a].root@,
                                        ba.transitions@,
                                        elems(ba.finals@),
                                        symbols@[b]@,
                                    );
                                assert(trees@[j].root@ == successor(
                                    trees@[a].root@,
                                    ba.transitions@,
                                    elems(ba.finals@),
                                    symbols@[b]@,
                                ));
                            } else {
                                assert(trees@[j].root@ == successor(
                                    trees@[head as int].root@,
                                    ba.transitions@,
                                    elems(ba.finals@),
                                    symbols@[i as int]@,
                                ));
                            }
                        }
                    }
                    trees.len() - 1
                },
            };
            let ghost before = row@;
            row.push(at);
            assert forall|k: int| 0 <= k < i + 1 implies (#[trigger] row@[k]) < trees@.len()
                && trees@[row@[k] as int].root@ == succ@[k].target.root@ by {
                if k < i {
                    assert(row@[k] == before[k]);
                    assert(trees@[before[k] as int] == old_trees[before[k] as int]);
                }
            }
            i = i + 1;
        }
        let ghost old_rows = rows@;
        rows.push(Row(row));
        proof {
            assert forall|x: int| 0 <= x < rows@.len() implies (#[trigger] rows@[x]).0@.len() == width
                && all_below(rows@[x].0@, trees@.len() as int) by {
                if x < old_rows.len() {
                    assert(rows@[x] == old_rows[x]);
                    assert(all_below(old_rows[x].0@, start.len() as int));
                    assert forall|y: int| 0 <= y < rows@[x].0@.len() implies (
                    #[trigger] rows@[x].0@[y]) < trees@.len() by {
                        assert(old_rows[x].0@[y] < start.len());
                    }
                } else {
                    assert forall|y: int| 0 <= y < rows@[x].0@.len() implies (
                    #[trigger] rows@[x].0@[y]) < trees@.len() by {}
                }
            }
            assert forall|x: int| 0 <= x < rows@.len() implies row_follows(
                trees@,
                (#[trigger] rows@[x]).0@,
                x,
                ba,
                symbols@,
            ) by {
                if x < old_rows.len() {
                    assert(rows@[x] == old_rows[x]);
                    assert(row_follows(start, old_rows[x].0@, x, ba, symbols@));
                    assert forall|k: int|
                        0 <= k < rows@[x].0@.len() && k < symbols@.len() implies (
                    #[trigger] rows@[x].0@[k]) < trees@.len() && trees@[rows@[x].0@[k] as int].root@
                        == successor(
                        trees@[x].root@,
                        ba.transitions@,
                        elems(ba.finals@),
                        symbols@[k]@,
                    ) by {
                        assert(old_rows[x].0@[k] < start.len());
                        assert(trees@[old_rows[x].0@[k] as int] == start[old_rows[x].0@[k] as int]);
                        assert(trees@[x] == start[x]);
                    }
                }
            }
        }
        head = head + 1;
    }
    (trees, rows)
}

/// The transitions of a state of the automaton, from the successors of a
/// tree and the numbers of the states of the trees.
fn edges_of(row: &Row, own: &Vec<Alphabet>, ids: &Vec<usize>, count: usize) -> (res: Vec<DraEdge>)
    requires
        row.0@.len() == own@.len() + 1,
        all_below(row.0@, ids@.len() as int),
        all_below(ids@, count as int),
        distinct(own@),
        forall|i: int| 0 <= i < own@.len() ==> (#[trigger] own@[i])@ != Set::<Ltl>::empty(),
    ensures
        row_ok(res@, count as int),
        res@.len() == row.0@.len(),
        forall|k: int|
            0 <= k < res@.len() ==> (#[trigger] res@[k]).target == ids@[row.0@[k] as int],
        forall|k: int| 1 <= k < res@.len() ==> (#[trigger] res@[k]).label() == Some(own@[k - 1]@),
{
    let mut res: Vec<DraEdge> = Vec::new();
    res.push(DraEdge { on: DRATransition::Others, target: ids[row.0[0]] });
    let mut k: usize = 0;
    while k < own.len()
        invariant
            k <= own@.len(),
            row.0@.len() == own@.len() + 1,
            all_below(row.0@, ids@.len() as int),
            all_below(ids@, count as int),
            distinct(own@),
            res@.len() == k + 1,
            res@[0].label() is None,
            forall|j: int|
                0 <= j < res@.len() ==> (#[trigger] res@[j]).target == ids@[row.0@[j] as int]
                    && res@[j].target < count,
            forall|j: int| 1 <= j < res@.len() ==> (#[trigger] res@[j]).label() == Some(own@[j - 1]@),
        decreases own@.len() - k,
    {
        let ghost before = res@;
        res.push(DraEdge { on: DRATransition::Symbol(own[k].copy_elem()), target: ids[row.0[k + 1]] });
        assert forall|j: int| 0 <= j < res@.len() implies (#[trigger] res@[j]).target
            == ids@[row.0@[j] as int] && res@[j].target < count by {
            if j < before.len() {
                assert(res@[j] == before[j]);
            }
        }
        assert forall|j: int| 1 <= j < res@.len() implies (#[trigger] res@[j]).label() == Some(
            own@[j - 1]@,
        ) by {
            if j < before.len() {
                assert(res@[j] == before[j]);
            } else {
                assert(own@[k as int].elem() == own@[k as int]@);
            }
        }
        k = k + 1;
    }
    proof {
        assert forall|a: int, b: int| 1 <= a < b < res@.len() implies (#[trigger] res@[a]).label() != (
        #[trigger] res@[b]).label() by {
            assert(own@[a - 1].elem() != own@[b - 1].elem());
            assert(own@[a - 1].elem() == own@[a - 1]@);
            assert(own@[b - 1].elem() == own@[b - 1]@);
        }
    }
    res
}

/// The tree has no node with number `id`.
pub open spec fn lacks(tree: SafraTree, id: usize) -> bool {
    node_with(tree.root@, id) is None
}

/// The tree has a node with number `id`, and the first such node is
/// marked.
pub open spec fn marks(tree: SafraTree, id: usize) -> bool {
    node_with(tree.root@, id) is Some && node_with(tree.root@, id).unwrap().marked
}

/// The acceptance pair of node number `id`: the states of the trees that
/// have no node with that number, and the states of the trees that have a
/// marked node with that number.
fn pair_of(trees: &Vec<SafraTree>, ids: &Vec<usize>, count: usize, id: usize) -> (res: (
    Vec<usize>,
    Vec<usize>,
))
    requires
        ids@.len() == trees@.len(),
        all_below(ids@, count as int),
    ensures
        all_below(res.0@, count as int),
        all_below(res.1@, count as int),
        forall|q: usize|
            occurs(res.0@, q) <==> exists|i: int|
                0 <= i < trees@.len() && ids@[i] == q && lacks(#[trigger] trees@[i], id),
        forall|q: usize|
            occurs(res.1@, q) <==> exists|i: int|
                0 <= i < trees@.len() && ids@[i] == q && marks(#[trigger] trees@[i], id),
{
    let mut non_exist: Vec<usize> = Vec::new();
    let mut marked: Vec<usize> = Vec::new();
    let mut i: usize = 0;
    while i < trees.len()
        invariant
            i <= trees@.len(),
            ids@.len() == trees@.len(),
            all_below(ids@, count as int),
            all_below(non_exist@, count as int),
            all_below(marked@, count as int),
            forall|q: usize|
                occurs(non_exist@, q) <==> exists|j: int|
                    0 <= j < i && ids@[j] == q && lacks(#[trigger] trees@[j], id),
            forall|q: usize|
                occurs(marked@, q) <==> exists|j: int|
                    0 <= j < i && ids@[j] == q && marks(#[trigger] trees@[j], id),
        decreases trees@.len() - i,
    {
        let ghost old_non = non_exist@;
        let ghost old_marked = marked@;
        proof {
            lemma_push_elems(old_marked, ids@[i as int]);
            lemma_push_elems(old_non, ids@[i as int]);
        }
        match trees[i].root.get_by_id(id) {
            Some(node) => {
                proof {
                    lemma_children(node);
                }
                if node.marked {
                    put(&mut marked, ids[i]);
                }
            },
            None => {
                put(&mut non_exist, ids[i]);
            },
        }
        proof {
            let t = trees@[i as int];
            assert forall|q: usize|
                occurs(non_exist@, q) <==> exists|j: int|
                    0 <= j < i + 1 && ids@[j] == q && lacks(#[trigger] trees@[j], id) by {
                assert(occurs(old_non, q) <==> elems(old_non).contains(q));
                assert(occurs(non_exist@, q) <==> elems(non_exist@).contains(q));
                if lacks(t, id) {
                    assert(occurs(non_exist@, q) <==> occurs(old_non, q) || q == ids@[i as int]);
                } else {
                    assert(occurs(non_exist@, q) <==> occurs(old_non, q));
                }
                if exists|j: int| 0 <= j < i + 1 && ids@[j] == q && lacks(#[trigger] trees@[j], id) {
                    let j = choose|j: int|
                        0 <= j < i + 1 && ids@[j] == q && lacks(#[trigger] trees@[j], id);
                    if j < i {
                        assert(occurs(old_non, q));
                    }
                }
            }
            assert forall|q: usize|
                occurs(marked@, q) <==> exists|j: int|
                    0 <= j < i + 1 && ids@[j] == q && marks(#[trigger] trees@[j], id) by {
                assert(occurs(old_marked, q) <==> elems(old_marked).contains(q));
                assert(occurs(marked@, q) <==> elems(marked@).contains(q));
                if marks(t, id) {
                    assert(occurs(marked@, q) <==> occurs(old_marked, q) || q == ids@[i as int]);
                } else {
                    assert(occurs(marked@, q) <==> occurs(old_marked, q));
                }
                if exists|j: int| 0 <= j < i + 1 && ids@[j] == q && marks(#[trigger] trees@[j], id) {
                    let j = choose|j: int|
                        0 <= j < i + 1 && ids@[j] == q && marks(#[trigger] trees@[j], id);
                    if j < i {
                        assert(occurs(old_marked, q));
                    }
                }
            }
            assert(all_below(non_exist@, count as int)) by {
                assert forall|x: int| 0 <= x < non_exist@.len() implies (#[trigger] non_exist@[x])
                    < count by {
                    if x < old_non.len() {
                        assert(old_non[x] < count);
                    }
                }
            }
            assert(all_below(marked@, count as int)) by {
                assert forall|x: int| 0 <= x < marked@.len() implies (#[trigger] marked@[x])
                    < count by {
                    if x < old_marked.len() {
                        assert(old_marked[x] < count);
                    }
                }
            }
        }
        i = i + 1;
    }
    (non_exist, marked)
}

/// The largest name is the number of different rows.
proof fn lemma_count_is_classes(rows: Seq<Row>, names: Seq<usize>, count: int)
    requires
        names.len() == rows.len(),
        forall|j: int| 0 <= j < names.len() ==> (#[trigger] names[j]) == name_of(rows, j),
        forall|j: int| 0 <= j < names.len() ==> (#[trigger] names[j]) <= count,
        count == 0 || exists|j: int| 0 <= j < names.len() && #[trigger] names[j] == count,
    ensures
        count == classes_before(rows, rows.len() as int),
{
    let n = rows.len() as int;
    let classes = classes_before(rows, n);
    if count > 0 {
        let j = choose|j: int| 0 <= j < names.len() && #[trigger] names[j] == count;
        lemma_name_bound(rows, j);
    }
    crate::ltl::common::lemma_classes_bound(rows, n);
    if classes >= 1 {
        lemma_names_dense(rows, n, classes);
        let p = choose|p: int|
            0 <= p < n && leads_class(rows, p) && #[trigger] classes_before(rows, p) + 1 == classes;
        lemma_leader_name(rows, p);
        assert(names[p] == classes);
    }
}

/// Each state below the number of different rows is the state of a row.
proof fn lemma_state_has_row(rows: Seq<Row>, ids: Seq<usize>, c: int)
    requires
        ids.len() == rows.len(),
        forall|j: int| 0 <= j < ids.len() ==> (#[trigger] ids[j]) + 1 == name_of(rows, j),
        0 <= c < classes_before(rows, rows.len() as int),
    ensures
        exists|p: int| 0 <= p < ids.len() && #[trigger] ids[p] == c,
{
    let n = rows.len() as int;
    lemma_names_dense(rows, n, c + 1);
    let p = choose|p: int|
        0 <= p < n && leads_class(rows, p) && #[trigger] classes_before(rows, p) + 1 == c + 1;
    lemma_leader_name(rows, p);
    assert(ids[p] + 1 == name_of(rows, p));
    assert(ids[p] == c);
}

/// The names less one, and the largest name.
fn names_to_states(names: &Vec<usize>) -> (res: (Vec<usize>, usize))
    requires
        forall|j: int| 0 <= j < names@.len() ==> 1 <= (#[trigger] names@[j]),
    ensures
        res.0@.len() == names@.len(),
        forall|j: int| 0 <= j < names@.len() ==> (#[trigger] res.0@[j]) + 1 == names@[j],
        forall|j: int| 0 <= j < names@.len() ==> (#[trigger] names@[j]) <= res.1,
        res.1 == 0 || exists|j: int| 0 <= j < names@.len() && #[trigger] names@[j] == res.1,
{
    let n = names.len();
    let mut count: usize = 0;
    let mut ids: Vec<usize> = Vec::new();
    let mut i: usize = 0;
    while i < n
        invariant
            i <= n,
            n == names@.len(),
            ids@.len() == i,
            forall|j: int| 0 <= j < n ==> 1 <= (#[trigger] names@[j]),
            forall|j: int| 0 <= j < i ==> (#[trigger] names@[j]) <= count,
            forall|j: int| 0 <= j < i ==> (#[trigger] ids@[j]) + 1 == names@[j],
            count == 0 || exists|j: int| 0 <= j < i && #[trigger] names@[j] == count,
        decreases n - i,
    {
        if names[i] > count {
            count = names[i];
        }
        ids.push(names[i] - 1);
        i = i + 1;
    }
    (ids, count)
}

/// States are the same exactly where the rows are.
proof fn lemma_states_alike(rows: Seq<Row>, names: Seq<usize>, ids: Seq<usize>, i: int, j: int)
    requires
        names.len() == rows.len(),
        ids.len() == rows.len(),
        0 <= i < rows.len(),
        0 <= j < rows.len(),
        ids[i] + 1 == names[i],
        ids[j] + 1 == names[j],
        (names[i] == names[j]) <==> rows[i].elem() == rows[j].elem(),
    ensures
        (ids[i] == ids[j]) <==> rows[i].0@ == rows[j].0@,
{
}

/// The states of the trees: trees with the same row of successors stand
/// for one state, and the states are numbered from zero in the order in
/// which their rows occur first. Returns the states of the trees and the
/// number of states.
fn number_states(rows: &Vec<Row>) -> (res: (Vec<usize>, usize))
    ensures
        res.0@.len() == rows@.len(),
        all_below(res.0@, res.1 as int),
        forall|i: int| 0 <= i < res.0@.len() ==> (#[trigger] res.0@[i]) + 1 == name_of(rows@, i),
        forall|i: int, j: int|
            0 <= i < rows@.len() && 0 <= j < rows@.len() ==> ((#[trigger] res.0@[i]
                == #[trigger] res.0@[j]) <==> rows@[i].0@ == rows@[j].0@),
        res.1 == classes_before(rows@, rows@.len() as int),
{
    let names = get_rename_map(rows);
    let (ids, count) = names_to_states(&names);
    proof {
        lemma_count_is_classes(rows@, names@, count as int);
        assert forall|i: int, j: int| 0 <= i < rows@.len() && 0 <= j < rows@.len() implies ((
        #[trigger] ids@[i] == #[trigger] ids@[j]) <==> rows@[i].0@ == rows@[j].0@) by {
            lemma_states_alike(rows@, names@, ids@, i, j);
        }
        assert forall|j: int| 0 <= j < ids@.len() implies (#[trigger] ids@[j]) < count by {
            assert(names@[j] <= count);
        }
    }
    (ids, count)
}

/// For each state, the first tree that stands for it.
fn first_trees(ids: &Vec<usize>, count: usize, Ghost(rows): Ghost<Seq<Row>>) -> (origin: Vec<usize>)
    requires
        ids@.len() == rows.len(),
        all_below(ids@, count as int),
        forall|j: int| 0 <= j < ids@.len() ==> (#[trigger] ids@[j]) + 1 == name_of(rows, j),
        count == classes_before(rows, rows.len() as int),
    ensures
        origin@.len() == count,
        forall|c: int|
            0 <= c < count ==> (#[trigger] origin@[c]) < ids@.len() && ids@[origin@[c] as int] == c,
{
    let n = ids.len();
    let mut origin: Vec<usize> = Vec::new();
    let mut c: usize = 0;
    while c < count
        invariant
            c <= count,
            origin@.len() == c,
        decreases count - c,
    {
        origin.push(0);
        c = c + 1;
    }
    let mut i: usize = n;
    while i > 0
        invariant
            i <= n,
            ids@.len() == n,
            origin@.len() == count,
            all_below(ids@, count as int),
            forall|x: int|
                i <= x < n ==> origin@[(#[trigger] ids@[x]) as int] < n
                    && ids@[origin@[ids@[x] as int] as int] == ids@[x],
        decreases i,
    {
        i = i - 1;
        let ghost before = origin@;
        origin.set(ids[i], i);
        assert forall|x: int| i <= x < n implies origin@[(#[trigger] ids@[x]) as int] < n
            && ids@[origin@[ids@[x] as int] as int] == ids@[x] by {
            if x > i && ids@[x] != ids@[i as int] {
                assert(origin@[ids@[x] as int] == before[ids@[x] as int]);
            }
        }
    }
    proof {
        assert forall|c: int| 0 <= c < count implies (#[trigger] origin@[c]) < ids@.len()
            && ids@[origin@[c] as int] == c by {
            lemma_state_has_row(rows, ids@, c);
            let p = choose|p: int| 0 <= p < ids@.len() && #[trigger] ids@[p] == c;
            assert(origin@[ids@[p] as int] < n);
        }
    }
    origin
}

/// The symbol under which a transition is taken; the empty label for the
/// transition of the other symbols.
pub open spec fn symbol_of(e: DraEdge) -> Set<Ltl> {
    match e.label() {
        Some(s) => s,
        None => Set::empty(),
    }
}

/// State `q` stands for one of the trees.
pub open spec fn has_tree(names: Seq<usize>, q: int) -> bool {
    exists|i: int| 0 <= i < names.len() && #[trigger] names[i] == q
}

/// The transition leads from the state of tree `i` to the state of the
/// successor of tree `i` under the transition's symbol.
pub open spec fn leads_right(trees: Seq<SafraTree>, names: Seq<usize>, ba: &BA, i: int, e: DraEdge) -> bool {
    exists|j: int|
        0 <= j < trees.len() && (#[trigger] trees[j]).root@ == successor(
            trees[i].root@,
            ba.transitions@,
            elems(ba.finals@),
            symbol_of(e),
        ) && names[j] == e.target
}

/// The transitions of a state have the symbols of the automaton: each
/// symbol that asks for something has its transition, and no other symbol
/// has one.
pub open spec fn has_symbols(row: Seq<DraEdge>, ba: &BA) -> bool {
    &&& forall|k: int|
        1 <= k < row.len() ==> symbol_of(#[trigger] row[k]) != Set::<Ltl>::empty() && occurs(
            ba.symbols@,
            symbol_of(row[k]),
        )
    &&& forall|s: Set<Ltl>|
        s != Set::<Ltl>::empty() && #[trigger] occurs(ba.symbols@, s) ==> exists|k: int|
            1 <= k < row.len() && (#[trigger] row[k]).label() == Some(s)
}

/// The trees have the same successor under every symbol of the automaton
/// and under the empty label.
pub open spec fn alike_trees(a: SafraTree, b: SafraTree, ba: &BA) -> bool {
    forall|s: Set<Ltl>|
        s == Set::<Ltl>::empty() || occurs(ba.symbols@, s) ==> #[trigger] successor(
            a.root@,
            ba.transitions@,
            elems(ba.finals@),
            s,
        ) == successor(b.root@, ba.transitions@, elems(ba.finals@), s)
}

/// Tree `j` is the successor of an earlier tree under a symbol of the
/// automaton or under the empty label.
pub open spec fn reached_tree(trees: Seq<SafraTree>, j: int, ba: &BA) -> bool {
    exists|i: int, s: Set<Ltl>|
        0 <= i < j && (s == Set::<Ltl>::empty() || occurs(ba.symbols@, s)) && trees[j].root@
            == #[trigger] successor(trees[i].root@, ba.transitions@, elems(ba.finals@), s)
}

/// The pair is that of node number `id`: its first set holds the states of
/// the trees without a node of that number, its second set the states of
/// the trees in which the node of that number is marked.
pub open spec fn pair_is(
    pair: (Vec<usize>, Vec<usize>),
    trees: Seq<SafraTree>,
    names: Seq<usize>,
    id: usize,
) -> bool {
    &&& forall|q: usize|
        occurs(pair.0@, q) <==> exists|i: int|
            0 <= i < trees.len() && names[i] == q && lacks(#[trigger] trees[i], id)
    &&& forall|q: usize|
        occurs(pair.1@, q) <==> exists|i: int|
            0 <= i < trees.len() && names[i] == q && marks(#[trigger] trees[i], id)
}

impl DRA {
    /// The automaton is the determinisation of `ba`. Its trees are
    /// different trees, the first the tree of the initial states of `ba`;
    /// every state stands for a tree, and two trees stand for one state
    /// exactly if they have the same successors; each transition leads to
    /// the state of the successor tree under its symbol, and each state has
    /// a transition for each symbol of `ba`; pair number `id` is that of the
    /// nodes with number `id`, for each number up to the largest that
    /// `max_id` gives for a tree.
    pub open spec fn determinizes(&self, ba: &BA) -> bool {
        &&& self.trees@.len() >= 1
        &&& self.names@.len() == self.trees@.len()
        &&& self.trees@[0].root@ == root_view(elems(ba.initials@))
        &&& self.initial == self.names@[0]
        &&& distinct(self.trees@)
        &&& all_below(self.names@, self.size())
        &&& forall|q: int| 0 <= q < self.size() ==> #[trigger] has_tree(self.names@, q)
        &&& forall|i: int, j: int|
            0 <= i < self.trees@.len() && 0 <= j < self.trees@.len() ==> ((#[trigger] self.names@[i]
                == #[trigger] self.names@[j]) <==> alike_trees(self.trees@[i], self.trees@[j], ba))
        &&& forall|i: int, k: int|
            0 <= i < self.trees@.len() && 0 <= k < self.trans_f@[self.names@[i] as int]@.len()
                ==> leads_right(
                self.trees@,
                self.names@,
                ba,
                i,
                #[trigger] self.trans_f@[self.names@[i] as int]@[k],
            )
        &&& forall|q: int| 0 <= q < self.size() ==> has_symbols((#[trigger] self.trans_f@[q])@, ba)
        &&& forall|j: int| 1 <= j < self.trees@.len() ==> #[trigger] reached_tree(self.trees@, j, ba)
        &&& forall|i: int| 0 <= i < self.trees@.len() ==> max_id((#[trigger] self.trees@[i]).root@) <= self.acc@.len()
        &&& self.acc@.len() == 0 || exists|i: int|
            0 <= i < self.trees@.len() && max_id((#[trigger] self.trees@[i]).root@) == self.acc@.len()
        &&& forall|x: int|
            0 <= x < self.acc@.len() ==> pair_is(
                #[trigger] self.acc@[x],
                self.trees@,
                self.names@,
                (x + 1) as usize,
            )
    }
}

/// Trees with the same row of successors have the same successors, and the
/// other way round.
proof fn lemma_alike_rows(
    trees: Seq<SafraTree>,
    rows: Seq<Row>,
    symbols: Seq<Alphabet>,
    own: Seq<Alphabet>,
    ba: &BA,
    i: int,
    j: int,
)
    requires
        distinct(trees),
        trees.len() == rows.len(),
        0 <= i < trees.len(),
        0 <= j < trees.len(),
        rows_ok(rows, symbols.len() as int, trees.len() as int),
        row_follows(trees, rows[i].0@, i, ba, symbols),
        row_follows(trees, rows[j].0@, j, ba, symbols),
        symbols.len() == own.len() + 1,
        symbols[0]@ == Set::<Ltl>::empty(),
        forall|k: int| 1 <= k < symbols.len() ==> (#[trigger] symbols[k])@ == own[k - 1]@,
        forall|s: Set<Ltl>| occurs(own, s) <==> s != Set::<Ltl>::empty() && occurs(ba.symbols@, s),
    ensures
        rows[i].0@ == rows[j].0@ <==> alike_trees(trees[i], trees[j], ba),
{
    let trans = ba.transitions@;
    let fin = elems(ba.finals@);
    if rows[i].0@ == rows[j].0@ {
        assert forall|s: Set<Ltl>|
            s == Set::<Ltl>::empty() || occurs(ba.symbols@, s) implies #[trigger] successor(
            trees[i].root@,
            trans,
            fin,
            s,
        ) == successor(trees[j].root@, trans, fin, s) by {
            if s == Set::<Ltl>::empty() {
                assert(rows[i].0@[0] == rows[j].0@[0]);
            } else {
                assert(occurs(own, s));
                let k = choose|k: int| 0 <= k < own.len() && (#[trigger] own[k]).elem() == s;
                assert(symbols[k + 1]@ == own[k]@);
                assert(rows[i].0@[k + 1] == rows[j].0@[k + 1]);
            }
        }
    }
    if alike_trees(trees[i], trees[j], ba) {
        assert forall|k: int| 0 <= k < rows[i].0@.len() implies rows[i].0@[k] == rows[j].0@[k] by {
            let s = symbols[k]@;
            if k >= 1 {
                assert(own[k - 1].elem() == s);
                assert(occurs(own, s));
            }
            assert(successor(trees[i].root@, trans, fin, s) == successor(
                trees[j].root@,
                trans,
                fin,
                s,
            ));
            let a = rows[i].0@[k] as int;
            let b = rows[j].0@[k] as int;
            assert(trees[a].root@ == trees[b].root@);
            if a != b {
                if a < b {
                    assert(trees[a].elem() != trees[b].elem());
                } else {
                    assert(trees[b].elem() != trees[a].elem());
                }
            }
        }
        assert(rows[i].0@ =~= rows[j].0@);
    }
}

/// The transitions of state `q` are those of row `row`.
pub open spec fn edges_follow(edges: Seq<DraEdge>, row: Seq<usize>, ids: Seq<usize>, own: Seq<Alphabet>) -> bool {
    &&& edges.len() == row.len()
    &&& forall|x: int| 0 <= x < edges.len() ==> (#[trigger] edges[x]).target == ids[row[x] as int]
    &&& forall|x: int| 1 <= x < edges.len() ==> (#[trigger] edges[x]).label() == Some(own[x - 1]@)
}

/// The transitions of each state, from the row of the first tree that
/// stands for it.
fn all_edges(
    rows: &Vec<Row>,
    own: &Vec<Alphabet>,
    ids: &Vec<usize>,
    count: usize,
    origin: &Vec<usize>,
) -> (trans_f: Vec<Vec<DraEdge>>)
    requires
        origin@.len() == count,
        ids@.len() == rows@.len(),
        all_below(ids@, count as int),
        forall|j: int| 0 <= j < count ==> (#[trigger] origin@[j]) < rows@.len(),
        rows_ok(rows@, (own@.len() + 1) as int, rows@.len() as int),
        distinct(own@),
        forall|j: int| 0 <= j < own@.len() ==> (#[trigger] own@[j])@ != Set::<Ltl>::empty(),
    ensures
        trans_f@.len() == count,
        forall|q: int| 0 <= q < count ==> row_ok((#[trigger] trans_f@[q])@, count as int),
        forall|q: int|
            0 <= q < count ==> edges_follow(
                (#[trigger] trans_f@[q])@,
                rows@[origin@[q] as int].0@,
                ids@,
                own@,
            ),
{
    let mut trans_f: Vec<Vec<DraEdge>> = Vec::new();
    let mut c: usize = 0;
    while c < count
        invariant
            c <= count,
            trans_f@.len() == c,
            origin@.len() == count,
            ids@.len() == rows@.len(),
            all_below(ids@, count as int),
            forall|j: int| 0 <= j < count ==> (#[trigger] origin@[j]) < rows@.len(),
            rows_ok(rows@, (own@.len() + 1) as int, rows@.len() as int),
            distinct(own@),
            forall|j: int| 0 <= j < own@.len() ==> (#[trigger] own@[j])@ != Set::<Ltl>::empty(),
            forall|q: int| 0 <= q < c ==> row_ok((#[trigger] trans_f@[q])@, count as int),
            forall|q: int|
                0 <= q < c ==> edges_follow(
                    (#[trigger] trans_f@[q])@,
                    rows@[origin@[q] as int].0@,
                    ids@,
                    own@,
                ),
        decreases count - c,
    {
        let row = &rows[origin[c]];
        assert(rows@[origin@[c as int] as int].0@.len() == own@.len() + 1);
        let edges = edges_of(row, own, ids, count);
        let ghost before = trans_f@;
        trans_f.push(edges);
        proof {
            assert forall|q: int| 0 <= q < c + 1 implies row_ok(
                (#[trigger] trans_f@[q])@,
                count as int,
            ) by {
                if q < c {
                    assert(trans_f@[q] == before[q]);
                }
            }
            assert forall|q: int| 0 <= q < c + 1 implies edges_follow(
                (#[trigger] trans_f@[q])@,
                rows@[origin@[q] as int].0@,
                ids@,
                own@,
            ) by {
                if q < c {
                    assert(trans_f@[q] == before[q]);
                }
            }
        }
        c = c + 1;
    }
    trans_f
}

/// The acceptance pairs: one for each number up to the largest that
/// `max_id` gives for a tree.
fn all_pairs(trees: &Vec<SafraTree>, ids: &Vec<usize>, count: usize) -> (acc: Vec<(Vec<usize>, Vec<usize>)>)
    requires
        ids@.len() == trees@.len(),
        all_below(ids@, count as int),
    ensures
        forall|x: int|
            0 <= x < acc@.len() ==> all_below((#[trigger] acc@[x]).0@, count as int) && all_below(
                acc@[x].1@,
                count as int,
            ),
        forall|x: int|
            0 <= x < acc@.len() ==> pair_is(#[trigger] acc@[x], trees@, ids@, (x + 1) as usize),
        forall|j: int| 0 <= j < trees@.len() ==> max_id((#[trigger] trees@[j]).root@) <= acc@.len(),
        acc@.len() == 0 || exists|j: int|
            0 <= j < trees@.len() && max_id((#[trigger] trees@[j]).root@) == acc@.len(),
{
    let n = trees.len();
    let mut max_node: usize = 0;
    let mut i: usize = 0;
    while i < n
        invariant
            i <= n,
            n == trees@.len(),
            forall|j: int| 0 <= j < i ==> max_id((#[trigger] trees@[j]).root@) <= max_node,
            max_node == 0 || exists|j: int| 0 <= j < i && max_id((#[trigger] trees@[j]).root@) == max_node,
        decreases n - i,
    {
        let m = trees[i].root.get_max_id();
        if m > max_node {
            max_node = m;
        }
        i = i + 1;
    }
    let mut acc: Vec<(Vec<usize>, Vec<usize>)> = Vec::new();
    let mut id: usize = 0;
    while id < max_node
        invariant
            id <= max_node,
            acc@.len() == id,
            ids@.len() == trees@.len(),
            all_below(ids@, count as int),
            forall|x: int|
                0 <= x < acc@.len() ==> all_below((#[trigger] acc@[x]).0@, count as int) && all_below(
                    acc@[x].1@,
                    count as int,
                ),
            forall|x: int|
                0 <= x < acc@.len() ==> pair_is(#[trigger] acc@[x], trees@, ids@, (x + 1) as usize),
        decreases max_node - id,
    {
        id = id + 1;
        let pair = pair_of(trees, ids, count, id);
        let ghost before = acc@;
        acc.push(pair);
        assert forall|x: int| 0 <= x < acc@.len() implies all_below(
            (#[trigger] acc@[x]).0@,
            count as int,
        ) && all_below(acc@[x].1@, count as int) by {
            if x < before.len() {
                assert(acc@[x] == before[x]);
            }
        }
        assert forall|x: int| 0 <= x < acc@.len() implies pair_is(
            #[trigger] acc@[x],
            trees@,
            ids@,
            (x + 1) as usize,
        ) by {
            if x < before.len() {
                assert(acc@[x] == before[x]);
            }
        }
    }
    acc
}

/// The symbols in the order of the successors in a row: first the empty
/// label, then the symbols that ask for something.
fn row_symbols(own: &Vec<Alphabet>) -> (symbols: Vec<Alphabet>)
    ensures
        symbols@.len() == own@.len() + 1,
        symbols@[0]@ == Set::<Ltl>::empty(),
        forall|j: int| 1 <= j < symbols@.len() ==> (#[trigger] symbols@[j])@ == own@[j - 1]@,
{
    let mut symbols: Vec<Alphabet> = Vec::new();
    symbols.push(Alphabet::full());
    let mut k: usize = 0;
    while k < own.len()
        invariant
            k <= own@.len(),
            symbols@.len() == k + 1,
            symbols@[0]@ == Set::<Ltl>::empty(),
            forall|j: int| 1 <= j < symbols@.len() ==> (#[trigger] symbols@[j])@ == own@[j - 1]@,
        decreases own@.len() - k,
    {
        let ghost before = symbols@;
        symbols.push(own[k].copy_elem());
        assert forall|j: int| 1 <= j < symbols@.len() implies (#[trigger] symbols@[j])@ == own@[j
            - 1]@ by {
            if j < before.len() {
                assert(symbols@[j] == before[j]);
            } else {
                assert(own@[k as int].elem() == own@[k as int]@);
            }
        }
        k = k + 1;
    }
    symbols
}

/// What was built is the determinisation of `ba`.
#[verifier::rlimit(40)]
proof fn lemma_determinizes(
    res: &DRA,
    ba: &BA,
    rows: Seq<Row>,
    symbols: Seq<Alphabet>,
    own: Seq<Alphabet>,
    origin: Seq<usize>,
)
    requires
        res.trees@.len() >= 1,
        res.trees@.len() == rows.len(),
        res.names@.len() == rows.len(),
        res.trees@[0].root@ == root_view(elems(ba.initials@)),
        res.initial == res.names@[0],
        distinct(res.trees@),
        rows_ok(rows, symbols.len() as int, rows.len() as int),
        forall|i: int| 0 <= i < rows.len() ==> row_follows(res.trees@, (#[trigger] rows[i]).0@, i, ba, symbols),
        forall|j: int| 1 <= j < res.trees@.len() ==> #[trigger] comes_from(res.trees@, j, ba, symbols),
        symbols.len() == own.len() + 1,
        symbols[0]@ == Set::<Ltl>::empty(),
        forall|k: int| 1 <= k < symbols.len() ==> (#[trigger] symbols[k])@ == own[k - 1]@,
        forall|s: Set<Ltl>| occurs(own, s) <==> s != Set::<Ltl>::empty() && occurs(ba.symbols@, s),
        all_below(res.names@, res.size()),
        forall|i: int, j: int|
            0 <= i < rows.len() && 0 <= j < rows.len() ==> ((#[trigger] res.names@[i]
                == #[trigger] res.names@[j]) <==> rows[i].0@ == rows[j].0@),
        origin.len() == res.size(),
        forall|c: int|
            0 <= c < res.size() ==> (#[trigger] origin[c]) < rows.len() && res.names@[origin[c] as int]
                == c,
        forall|q: int| 0 <= q < res.size() ==> row_ok((#[trigger] res.trans_f@[q])@, res.size()),
        forall|q: int|
            0 <= q < res.size() ==> edges_follow(
                (#[trigger] res.trans_f@[q])@,
                rows[origin[q] as int].0@,
                res.names@,
                own,
            ),
        forall|x: int|
            0 <= x < res.acc@.len() ==> pair_is(
                #[trigger] res.acc@[x],
                res.trees@,
                res.names@,
                (x + 1) as usize,
            ),
        forall|j: int| 0 <= j < res.trees@.len() ==> max_id((#[trigger] res.trees@[j]).root@) <= res.acc@.len(),
        res.acc@.len() == 0 || exists|j: int|
            0 <= j < res.trees@.len() && max_id((#[trigger] res.trees@[j]).root@) == res.acc@.len(),
    ensures
        res.determinizes(ba),
{
    let t = res.trees@;
    let nm = res.names@;
    let tf = res.trans_f@;
    assert forall|j: int| 1 <= j < t.len() implies #[trigger] reached_tree(t, j, ba) by {
        assert(comes_from(t, j, ba, symbols));
        let (i, k) = choose|i: int, k: int|
            0 <= i < j && 0 <= k < symbols.len() && t[j].root@ == #[trigger] successor(
                t[i].root@,
                ba.transitions@,
                elems(ba.finals@),
                symbols[k]@,
            );
        let s = symbols[k]@;
        if k >= 1 {
            assert(own[k - 1].elem() == s);
            assert(occurs(own, s));
        }
        assert(t[j].root@ == successor(t[i].root@, ba.transitions@, elems(ba.finals@), s));
    }
    assert forall|q: int| 0 <= q < res.size() implies #[trigger] has_tree(nm, q) by {
        assert(nm[origin[q] as int] == q);
    }
    assert forall|i: int, j: int| 0 <= i < t.len() && 0 <= j < t.len() implies ((#[trigger] nm[i]
        == #[trigger] nm[j]) <==> alike_trees(t[i], t[j], ba)) by {
        lemma_alike_rows(t, rows, symbols, own, ba, i, j);
    }
    assert forall|i: int, k: int| 0 <= i < t.len() && 0 <= k < tf[nm[i] as int]@.len() implies leads_right(
        t,
        nm,
        ba,
        i,
        #[trigger] tf[nm[i] as int]@[k],
    ) by {
        let q = nm[i] as int;
        let o = origin[q] as int;
        assert(nm[o] == q);
        assert(rows[i].0@ == rows[o].0@);
        let e = tf[q]@[k];
        assert(edges_follow(tf[q]@, rows[o].0@, nm, own));
        assert(e.target == nm[rows[o].0@[k] as int]);
        assert(row_follows(t, rows[i].0@, i, ba, symbols));
        let j = rows[i].0@[k] as int;
        assert(row_ok(tf[q]@, res.size()));
        if k == 0 {
            assert(symbol_of(e) == symbols[0]@);
        } else {
            assert(e.label() == Some(own[k - 1]@));
            assert(symbols[k]@ == own[k - 1]@);
        }
        assert(t[j].root@ == successor(t[i].root@, ba.transitions@, elems(ba.finals@), symbol_of(e)));
    }
    assert forall|q: int| 0 <= q < res.size() implies has_symbols((#[trigger] tf[q])@, ba) by {
        let row = tf[q]@;
        assert(edges_follow(row, rows[origin[q] as int].0@, nm, own));
        assert forall|k: int| 1 <= k < row.len() implies symbol_of(#[trigger] row[k]) != Set::<
            Ltl,
        >::empty() && occurs(ba.symbols@, symbol_of(row[k])) by {
            assert(row[k].label() == Some(own[k - 1]@));
            assert(own[k - 1].elem() == own[k - 1]@);
            assert(occurs(own, own[k - 1]@));
        }
        assert forall|s: Set<Ltl>|
            s != Set::<Ltl>::empty() && #[trigger] occurs(ba.symbols@, s) implies exists|k: int|
            1 <= k < row.len() && (#[trigger] row[k]).label() == Some(s) by {
            assert(occurs(own, s));
            let x = choose|x: int| 0 <= x < own.len() && (#[trigger] own[x]).elem() == s;
            assert(row[x + 1].label() == Some(own[x]@));
        }
    }
}

/// The deterministic Rabin automaton of a Büchi automaton, by Safra's
/// construction. Its states are the Safra trees that are reached from the
/// tree of the initial states; trees with the same successors are merged,
/// and the states are numbered. There is one acceptance pair for each
/// number that a node can have.
pub fn determinize(ba: &BA) -> (res: DRA)
    requires
        ba.wf(),
    ensures
        res.wf(),
        res.determinizes(ba),
{
    let own = own_symbols(ba);
    let symbols = row_symbols(&own);
    let (trees, rows) = explore_trees(ba, &symbols);
    let (ids, count) = number_states(&rows);
    let origin = first_trees(&ids, count, Ghost(rows@));
    let trans_f = all_edges(&rows, &own, &ids, count, &origin);
    let acc = all_pairs(&trees, &ids, count);
    let initial = ids[0];
    let ghost tv = trees@;
    let res = DRA { initial, trans_f, acc, trees, names: ids };
    proof {
        if res.acc@.len() > 0 {
            let j = choose|j: int|
                0 <= j < tv.len() && max_id((#[trigger] tv[j]).root@) == res.acc@.len();
            assert(max_id(res.trees@[j].root@) == res.acc@.len());
        }
        lemma_determinizes(&res, ba, rows@, symbols@, own@, origin@);
    }
    res
}

} // verus!
