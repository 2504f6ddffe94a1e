use mcsp::ltl::ba::BA;
use mcsp::ltl::common::{renumber_list, retarget, Alphabet, SimpleTransition};
use mcsp::ltl::formula::{PhiOp, AP};
use mcsp::ltl::powerba::{letters_of, power_symbols, to_powerba, widen};

fn letter(name: &str) -> PhiOp {
    AP::create(name.to_string())
}

fn label(names: &[&str]) -> Alphabet {
    Alphabet(names.iter().map(|n| letter(n)).collect())
}

fn names(a: &Alphabet) -> Vec<String> {
    let mut out: Vec<String> = a.0.iter().map(|p| p.fmt()).collect();
    out.sort();
    out
}

#[test]
fn letters_are_collected_once() {
    let symbols = vec![label(&["p", "q"]), label(&[]), label(&["q", "r"])];
    let letters = letters_of(&symbols);
    let mut found: Vec<String> = letters.iter().map(|p| p.fmt()).collect();
    found.sort();
    assert_eq!(found, vec!["p", "q", "r"]);
}

#[test]
fn all_sets_of_letters_by_their_bits() {
    let letters = vec![letter("p"), letter("q")];
    let symbols = power_symbols(&letters).unwrap();
    assert_eq!(symbols.len(), 4);
    assert_eq!(names(&symbols[0]), Vec::<String>::new());
    assert_eq!(names(&symbols[1]), vec!["p"]);
    assert_eq!(names(&symbols[2]), vec!["q"]);
    assert_eq!(names(&symbols[3]), vec!["p", "q"]);
    assert_eq!(power_symbols(&Vec::new()).unwrap().len(), 1);
}

#[test]
fn too_many_letters_are_not_counted() {
    let letters: Vec<PhiOp> = (0..usize::BITS).map(|i| letter(&format!("p{}", i))).collect();
    assert!(power_symbols(&letters).is_none());
}

#[test]
fn transitions_are_taken_under_every_fitting_set() {
    let symbols = power_symbols(&vec![letter("p"), letter("q")]).unwrap();
    let list = vec![
        SimpleTransition { props: label(&["p"]), target: 1 },
        SimpleTransition { props: label(&[]), target: 0 },
    ];
    let wide = widen(&list, &symbols);
    let mut found: Vec<(Vec<String>, usize)> = wide.iter().map(|t| (names(&t.props), t.target)).collect();
    found.sort();
    let p = "p".to_string();
    let q = "q".to_string();
    assert_eq!(
        found,
        vec![
            (vec![], 0),
            (vec![p.clone()], 0),
            (vec![p.clone()], 1),
            (vec![p.clone(), q.clone()], 0),
            (vec![p.clone(), q.clone()], 1),
            (vec![q.clone()], 0),
        ]
    );
}

#[test]
fn automaton_over_all_sets_of_letters() {
    let ba = BA {
        initials: vec![0],
        symbols: vec![label(&["p"]), label(&[])],
        transitions: vec![
            vec![SimpleTransition { props: label(&["p"]), target: 1 }],
            vec![SimpleTransition { props: label(&[]), target: 1 }],
        ],
        finals: vec![1],
    };
    let power = to_powerba(&ba).unwrap();
    assert_eq!(power.initials, vec![0]);
    assert_eq!(power.finals, vec![1]);
    assert_eq!(power.symbols.len(), 2);
    assert_eq!(power.transitions.len(), 2);
    assert_eq!(power.transitions[0].len(), 1);
    assert_eq!(names(&power.transitions[0][0].props), vec!["p"]);
    assert_eq!(power.transitions[1].len(), 2);
}

#[test]
fn targets_and_lists_are_led_to_new_numbers() {
    let list = vec![
        SimpleTransition { props: label(&["p"]), target: 0 },
        SimpleTransition { props: label(&["p"]), target: 2 },
        SimpleTransition { props: label(&["q"]), target: 1 },
    ];
    let led = retarget(&list, &vec![5, 7, 5]);
    let found: Vec<(Vec<String>, usize)> = led.iter().map(|t| (names(&t.props), t.target)).collect();
    assert_eq!(found, vec![(vec!["p".to_string()], 5), (vec!["q".to_string()], 7)]);
    assert_eq!(renumber_list(&vec![0, 2, 1], &vec![5, 7, 5]), vec![5, 7]);
}
