use mcsp::listset::Element;
use mcsp::ltl::ba::{by_size, next, prune_transitions, to_ba};
use mcsp::ltl::common::{
    bar_op, get_rename_map, merge_states, renumber, Alphabet, Conjuction, Outgoing,
    SimpleTransition,
};
use mcsp::ltl::formula::{And, False, Next, Not, Or, PhiOp, Release, True, Until, AP};
use mcsp::ltl::gba::{delta2, to_gba, AccFamily, AccTransition};
use mcsp::ltl::safra::{determinize, DRATransition, SafraNode, SafraTree};
use mcsp::ltl::vwaa::{big_delta, small_delta, to_vwaa, Transition};

fn prop(name: &str) -> PhiOp {
    AP::create(name.to_string())
}

fn always(phi: PhiOp) -> PhiOp {
    Release::create(False::create(), phi)
}

fn eventually(phi: PhiOp) -> PhiOp {
    Until::create(True::create(), phi)
}

fn texts(list: &[PhiOp]) -> Vec<String> {
    let mut out: Vec<String> = list.iter().map(|p| p.fmt()).collect();
    out.sort();
    out
}

fn arcs(list: &[Transition]) -> Vec<(Vec<String>, String)> {
    let mut out: Vec<_> = list.iter().map(|t| (texts(&t.props.0), t.target.fmt())).collect();
    out.sort();
    out
}

fn simple(label: &[&str], target: usize) -> SimpleTransition {
    SimpleTransition { props: Alphabet(label.iter().map(|p| prop(p)).collect()), target }
}

#[test]
fn negation_goes_down_to_the_propositions() {
    let phi = Until::create(prop("p"), And::create(prop("q"), Next::create(prop("r"))));
    let neg = phi.negate();
    assert_eq!(neg.fmt(), "(!(p)) R ((!(q)) | (X(!(r))))");
    assert_eq!(neg.negate(), phi);
    assert_eq!(True::create().negate(), False::create());
    assert_eq!(prop("p").negate(), Not::create(AP { value: "p".to_string() }));
}

#[test]
fn conjunction_and_disjunction_are_made_simpler() {
    let p = || prop("p");
    let q = || prop("q");
    assert_eq!(And::create(True::create(), p()), p());
    assert_eq!(And::create(p(), True::create()), p());
    assert_eq!(And::create(False::create(), p()), False::create());
    assert_eq!(And::create(p(), False::create()), False::create());
    assert_eq!(And::create(p(), p()), p());
    assert_eq!(And::create(p(), q()).fmt(), "(p) & (q)");
    assert_eq!(Or::create(True::create(), p()), True::create());
    assert_eq!(Or::create(p(), True::create()), True::create());
    assert_eq!(Or::create(False::create(), p()), p());
    assert_eq!(Or::create(p(), False::create()), p());
    assert_eq!(Or::create(p(), p()).fmt(), "(p) | (p)");
}

#[test]
fn formulae_are_in_order() {
    let list = [
        True::create(),
        False::create(),
        prop("p").negate(),
        prop("a"),
        prop("ab"),
        prop("b"),
        Until::create(prop("a"), prop("b")),
        Until::create(prop("b"), prop("a")),
        Next::create(prop("a")),
        Release::create(prop("a"), prop("b")),
        And::create(prop("a"), prop("b")),
        Or::create(prop("a"), prop("b")),
    ];
    for (i, a) in list.iter().enumerate() {
        for (j, b) in list.iter().enumerate() {
            let expected = if i < j { -1 } else if i == j { 0 } else { 1 };
            assert_eq!(a.compare(b), expected, "{} against {}", a.fmt(), b.fmt());
            assert_eq!(a.same(b), i == j);
        }
    }
    let conj = Conjuction(vec![prop("b"), Next::create(prop("a")), prop("a")]);
    assert_eq!(conj.first().map(|p| p.fmt()), Some("a".to_string()));
    assert!(Conjuction(vec![]).first().is_none());
}

#[test]
fn kinds_and_operands() {
    let both = And::create(prop("p"), prop("q"));
    assert!(!both.is_temporal());
    assert!(!both.is_atomic());
    assert_eq!(texts(&both.get_subformula()), vec!["p", "q"]);
    assert!(prop("p").is_temporal() && prop("p").is_atomic());
    assert!(prop("p").get_subformula().is_empty());
    assert_eq!(texts(&prop("p").negate().get_subformula()), vec!["p"]);
    assert!(Next::create(prop("p")).is_temporal());
    assert!(!Next::create(prop("p")).is_atomic());
    assert_eq!(texts(&And::flatten(&And::create(both.duplicate(), prop("r")))), vec!["p", "q", "r"]);
}

#[test]
fn labels_join_unless_they_clash() {
    let p = Alphabet::with_prop(prop("p"));
    let q = Alphabet::with_prop(prop("q"));
    let not_p = Alphabet::with_prop(prop("p").negate());
    assert!(Alphabet::full().is_full());
    assert!(!p.is_full());
    assert_eq!(texts(&p.intersection(&q).unwrap().0), vec!["p", "q"]);
    assert_eq!(texts(&p.intersection(&Alphabet::full()).unwrap().0), vec!["p"]);
    assert!(p.intersection(&not_p).is_none());
    assert!(p.intersection(&q).unwrap().intersection(&not_p).is_none());
    assert!(p.eq_elem(&Alphabet(vec![prop("p"), prop("p")])));
}

#[test]
fn lifting_into_conjunctions() {
    let phi = And::create(Or::create(prop("a"), prop("b")), Or::create(prop("c"), prop("a")));
    assert_eq!(texts(&bar_op(&phi)), vec!["(a) & (c)", "(b) & (a)", "(b) & (c)", "a"]);
    assert_eq!(texts(&bar_op(&eventually(prop("p")))), vec!["(true) U (p)"]);
}

#[test]
fn transitions_of_formulae() {
    assert!(small_delta(&False::create()).is_empty());
    assert_eq!(arcs(&small_delta(&True::create())), vec![(vec![], "true".to_string())]);
    assert_eq!(
        arcs(&small_delta(&prop("p"))),
        vec![(vec!["p".to_string()], "true".to_string())]
    );
    assert_eq!(
        arcs(&small_delta(&Until::create(prop("p"), prop("q")))),
        vec![
            (vec!["p".to_string()], "(p) U (q)".to_string()),
            (vec!["q".to_string()], "true".to_string())
        ]
    );
    assert_eq!(
        arcs(&small_delta(&always(prop("p")))),
        vec![(vec!["p".to_string()], "(false) R (p)".to_string())]
    );
    assert_eq!(
        arcs(&small_delta(&Next::create(Or::create(prop("p"), prop("q"))))),
        vec![(vec![], "p".to_string()), (vec![], "q".to_string())]
    );
    // A conjunction joins the transitions of its sides unless their labels
    // clash; a disjunction has the transitions of both sides.
    assert!(big_delta(&And::create(prop("p"), prop("p").negate())).is_empty());
    assert_eq!(
        arcs(&big_delta(&And::create(prop("p"), prop("q")))),
        vec![(vec!["p".to_string(), "q".to_string()], "true".to_string())]
    );
    assert_eq!(big_delta(&Or::create(prop("p"), prop("q"))).len(), 2);
    assert_eq!(
        arcs(&Transition::cross_op(&small_delta(&prop("p")), &small_delta(&prop("q")))),
        arcs(&big_delta(&And::create(prop("p"), prop("q"))))
    );
    let both = Conjuction(vec![prop("p"), eventually(prop("q"))]);
    assert_eq!(
        arcs(&delta2(&both)),
        vec![
            (vec!["p".to_string()], "(true) U (q)".to_string()),
            (vec!["p".to_string(), "q".to_string()], "true".to_string())
        ]
    );
    assert_eq!(arcs(&delta2(&Conjuction(vec![]))), vec![(vec![], "true".to_string())]);
}

#[test]
fn names_follow_the_first_occurrence() {
    let rows = vec![
        Outgoing(vec![simple(&["p"], 1)]),
        Outgoing(vec![simple(&[], 0)]),
        Outgoing(vec![simple(&["p", "p"], 1), simple(&["p"], 1)]),
        Outgoing(vec![]),
        Outgoing(vec![simple(&[], 0)]),
    ];
    assert_eq!(get_rename_map(&rows), vec![1, 2, 1, 3, 2]);
    assert_eq!(get_rename_map::<Outgoing>(&vec![]), Vec::<usize>::new());
}

#[test]
fn states_with_the_same_transitions_are_merged() {
    // States 0 and 2 are alike; once 2 is taken for 0, so are 1 and 3.
    let trans = vec![
        vec![simple(&["p"], 1)],
        vec![simple(&[], 0)],
        vec![simple(&["p"], 1)],
        vec![simple(&[], 2)],
    ];
    let merging = merge_states(&trans, &vec![false, false, false, false]);
    assert_eq!(merging.ids, vec![0, 1, 0, 1]);
    assert_eq!(merging.count, 2);
    assert_eq!(merging.kept, vec![true, true, false, false]);
    let merged = renumber(&trans, &merging);
    assert_eq!(merged.len(), 2);
    assert_eq!(merged[0][0].target, 1);
    assert_eq!(merged[1][0].target, 0);
    // A mark keeps states apart.
    let marked = merge_states(&trans, &vec![false, false, true, false]);
    assert_eq!(marked.ids, vec![0, 1, 2, 3]);
}

#[test]
fn shape_of_always() {
    let vwaa = to_vwaa(&always(prop("p")));
    assert_eq!((vwaa.initial.len(), vwaa.delta.len(), vwaa.final_states.len()), (1, 1, 0));
    let gba = to_gba(&vwaa);
    assert_eq!(gba.initial, vec![0]);
    assert_eq!(gba.trans_f.len(), 1);
    assert!(gba.acc_transitions.is_empty());
    let ba = to_ba(&gba);
    assert_eq!((ba.initials.clone(), ba.finals.clone(), ba.transitions.len()), (vec![0], vec![0], 1));
    assert_eq!(ba.symbols.len(), 1);
    let dra = determinize(&ba);
    assert_eq!(dra.initial, 0);
    assert_eq!(dra.trans_f.len(), 2);
    assert_eq!(dra.trees.len(), 3);
    assert_eq!(dra.acc, vec![(vec![], vec![0])]);
    let targets: Vec<Vec<usize>> =
        dra.trans_f.iter().map(|row| row.iter().map(|e| e.target).collect()).collect();
    assert_eq!(targets, vec![vec![1, 0], vec![1, 1]]);
}

#[test]
fn shape_of_eventually() {
    let vwaa = to_vwaa(&eventually(prop("p")));
    assert_eq!((vwaa.initial.len(), vwaa.delta.len(), vwaa.final_states.len()), (1, 2, 1));
    assert_eq!(vwaa.final_states[0].fmt(), "(true) U (p)");
    let gba = to_gba(&vwaa);
    assert_eq!(gba.trans_f.len(), 2);
    assert_eq!(gba.acc_transitions.len(), 1);
    assert_eq!(gba.acc_transitions[0].transitions.len(), 2);
    let ba = to_ba(&gba);
    assert_eq!((ba.initials.clone(), ba.finals.clone(), ba.transitions.len()), (vec![0], vec![1], 2));
    let dra = determinize(&ba);
    assert_eq!(dra.trans_f.len(), 3);
    assert_eq!(dra.acc, vec![(vec![], vec![]), (vec![0, 1], vec![2])]);
    let p = Alphabet::with_prop(prop("p"));
    let q = Alphabet::with_prop(prop("q"));
    assert_eq!(dra.delta(0, None), 0);
    assert_eq!(dra.delta(0, Some(&p)), 1);
    assert_eq!(dra.delta(0, Some(&q)), 0);
    assert_eq!(dra.delta(1, Some(&p)), 2);
    assert_eq!(dra.delta(2, None), 2);
}

#[test]
fn shape_of_until_next_and_again_and_again() {
    let until = determinize(&to_ba(&to_gba(&to_vwaa(&Until::create(prop("p"), prop("q"))))));
    assert_eq!(until.trans_f.len(), 3);
    assert_eq!(until.acc.len(), 1);
    let targets = |dra: &mcsp::ltl::safra::DRA| -> Vec<Vec<usize>> {
        dra.trans_f.iter().map(|row| row.iter().map(|e| e.target).collect()).collect()
    };
    assert_eq!(targets(&until), vec![vec![1, 0, 2], vec![1, 1, 1], vec![2, 2, 2]]);
    let next_gba = to_gba(&to_vwaa(&Next::create(prop("p"))));
    assert_eq!(next_gba.trans_f.len(), 3);
    let next_ba = to_ba(&next_gba);
    assert_eq!(next_ba.finals, vec![0, 1, 2]);
    let again = to_gba(&to_vwaa(&always(eventually(prop("p")))));
    assert_eq!(again.trans_f.len(), 1);
    assert_eq!(again.trans_f[0].len(), 2);
    assert_eq!(again.acc_transitions[0].transitions.len(), 1);
    let again_ba = to_ba(&again);
    assert_eq!(again_ba.transitions.len(), 2);
    assert_eq!(again_ba.finals, vec![1]);
}

#[test]
fn every_state_has_one_successor_for_each_symbol() {
    let phi = Until::create(prop("p"), And::create(prop("q"), eventually(prop("r"))));
    let dra = determinize(&to_ba(&to_gba(&to_vwaa(&phi))));
    let width = dra.trans_f[0].len();
    for row in &dra.trans_f {
        assert_eq!(row.len(), width);
        assert!(matches!(row[0].on, DRATransition::Others));
        let mut labels: Vec<Vec<String>> = Vec::new();
        for edge in &row[1..] {
            match &edge.on {
                DRATransition::Symbol(label) => {
                    assert!(!label.is_full());
                    let text = texts(&label.0);
                    assert!(!labels.contains(&text));
                    labels.push(text);
                }
                DRATransition::Others => panic!("a second default"),
            }
            assert!(edge.target < dra.trans_f.len());
        }
    }
    assert!(dra.names.iter().all(|q| *q < dra.trans_f.len()));
    assert_eq!(dra.names[0], dra.initial);
}

#[test]
fn levels_of_the_run() {
    let family = |members: Vec<(usize, SimpleTransition)>| AccFamily {
        phi: eventually(prop("p")),
        transitions: members
            .into_iter()
            .map(|(source, transition)| AccTransition { source, transition })
            .collect(),
    };
    let t = || simple(&["p"], 1);
    let u = || simple(&["q"], 1);
    let acc_t =
        vec![family(vec![(0, t())]), family(vec![(0, t()), (0, u())]), family(vec![(0, u())])];
    let taken = AccTransition { source: 0, transition: t() };
    // t is in the first two families but not in the third.
    assert_eq!(next(&acc_t, 0, &taken), 2);
    assert_eq!(next(&acc_t, 1, &taken), 2);
    assert_eq!(next(&acc_t, 2, &taken), 2);
    // From the last level the climb starts at zero.
    assert_eq!(next(&acc_t, 3, &taken), 2);
    let other = AccTransition { source: 0, transition: u() };
    assert_eq!(next(&acc_t, 0, &other), 0);
    assert_eq!(next(&acc_t, 1, &other), 3);
    assert_eq!(next(&vec![], 0, &taken), 0);
    assert_eq!(by_size(&acc_t), vec![1, 0, 2]);
}

#[test]
fn weaker_transitions_are_pruned() {
    let list = vec![simple(&["p"], 1), simple(&["p", "q"], 1), simple(&["q"], 2), simple(&[], 1)];
    let left = prune_transitions(&list);
    let mut kept: Vec<(Vec<String>, usize)> =
        left.iter().map(|t| (texts(&t.props.0), t.target)).collect();
    kept.sort();
    assert_eq!(
        kept,
        vec![(vec!["p".to_string(), "q".to_string()], 1), (vec!["q".to_string()], 2)]
    );
}

fn node(index: usize, labels: Vec<usize>, children: Vec<SafraNode>, marked: bool) -> SafraNode {
    SafraNode { index, labels, children, marked }
}

#[test]
fn steps_on_a_safra_tree() {
    let leaf = SafraNode::with_labels(vec![1, 2], 4);
    assert_eq!(leaf, node(4, vec![1, 2], vec![], false));
    let mut tree = node(
        1,
        vec![0, 1, 2],
        vec![node(2, vec![0, 1], vec![node(5, vec![1], vec![], true)], true), leaf],
        false,
    );
    assert_eq!(tree.get_max_id(), 5);
    assert_eq!(tree.get_by_id(5).map(|n| n.marked), Some(true));
    assert!(tree.get_by_id(3).is_none());
    tree.remove_mark();
    assert_eq!(tree.get_by_id(5).map(|n| n.marked), Some(false));
    assert!(!tree.children[0].marked);
    // Each node gets a child for its final states; the numbers go on
    // from the largest below the node.
    let mut grown = tree.duplicate();
    grown.branch_finals(&vec![1]);
    assert_eq!(grown.children.len(), 3);
    assert_eq!(grown.children[0].children[0].children, vec![node(6, vec![1], vec![], false)]);
    assert_eq!(grown.children[0].children[1], node(7, vec![1], vec![], false));
    assert_eq!(grown.children[1].children, vec![node(5, vec![1], vec![], false)]);
    assert_eq!(grown.children[2], node(8, vec![1], vec![], false));
    // A younger sibling loses what an older one holds, in its subtree too.
    let mut merged = grown.duplicate();
    merged.merge_horizontal();
    assert_eq!(merged.children[1].labels, vec![2]);
    assert_eq!(merged.children[1].children[0].labels, Vec::<usize>::new());
    assert_eq!(merged.children[2].labels, Vec::<usize>::new());
    merged.remove_empty_nodes();
    assert_eq!(merged.children.len(), 2);
    assert!(merged.children[1].children.is_empty());
    // The root holds what its children hold: they go and it is marked.
    merged.merge_vertical();
    assert_eq!(merged, node(1, vec![0, 1, 2], vec![], true));
    let mut stripped = tree.duplicate();
    stripped.remove_symbol(&vec![0, 2]);
    assert_eq!(stripped.labels, vec![1]);
    assert_eq!(stripped.children[0].labels, vec![0, 1]);
    assert!(tree.same(&tree.duplicate()));
    assert!(!tree.same(&grown));
}

#[test]
fn a_step_of_the_automaton_on_a_tree() {
    let p = Alphabet::with_prop(prop("p"));
    // 0 -p-> 1, 0 -> 0 under every letter, 1 -q-> 0.
    let trans = vec![vec![simple(&["p"], 1), simple(&[], 0)], vec![simple(&["q"], 0)]];
    let mut tree = node(1, vec![0], vec![node(2, vec![1], vec![], false)], false);
    tree.powerset(&trans, &p);
    let mut labels = tree.labels.clone();
    labels.sort();
    assert_eq!(labels, vec![0, 1]);
    assert!(tree.children[0].labels.is_empty());
    let root = SafraTree::with_root(vec![0]);
    assert_eq!(root.root, node(1, vec![0], vec![], false));
    let succ = root.succ_tree(&trans, &vec![1], &vec![Alphabet::full(), p]);
    assert_eq!(succ.len(), 2);
    assert_eq!(succ[0].target.root, node(1, vec![0], vec![], false));
    let mut reached = succ[1].target.root.labels.clone();
    reached.sort();
    assert_eq!(reached, vec![0, 1]);
}
