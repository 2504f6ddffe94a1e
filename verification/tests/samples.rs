use mcsp::logic::{parse_formula, LogicType};
use mcsp::samples::{
    decimal_string, format_ap, format_controllables, format_initial, format_lambdas, format_places,
    format_transitions, format_tuple, Transition, AP, PN1,
};

#[test]
fn places_and_controllables_are_listed() {
    assert_eq!(format_places(3), "P = {P1, P2, P3}\n");
    assert_eq!(format_places(1), "P = {P1}\n");
    assert_eq!(format_controllables(2), "C = {t1, t2}\n");
    assert_eq!(format_places(12), "P = {P1, P2, P3, P4, P5, P6, P7, P8, P9, P10, P11, P12}\n");
}

#[test]
fn tuples_and_lines_are_written() {
    assert_eq!(format_tuple(vec![1, 0, 20]), "(1, 0, 20)");
    assert_eq!(format_tuple(vec![7]), "(7)");
    assert_eq!(format_initial(vec![1, 0, 0]), "M = (1, 0, 0)\n");
    assert_eq!(format_lambdas(vec![1, 305]), "L = (1, 305)\n");
    assert_eq!(decimal_string(0), "0");
    assert_eq!(decimal_string(9081), "9081");
}

#[test]
fn propositions_are_written() {
    let aps = vec![
        AP { name: "a".to_string(), markings: vec![vec![1, 0], vec![0, 1]] },
        AP { name: "b".to_string(), markings: vec![vec![1, 1]] },
    ];
    assert_eq!(format_ap(aps), "AP = {\n\t(a, {(1, 0), (0, 1)}),\t(b, {(1, 1)})\n}\n");
}

#[test]
fn transitions_are_written() {
    let transitions = vec![
        Transition {
            name: "t1".to_string(),
            pre: vec!["1".to_string()],
            pre_markings: vec![1],
            post: vec!["2".to_string(), "3".to_string()],
            post_markings: vec![1, 2],
        },
        Transition {
            name: "t2".to_string(),
            pre: vec![],
            pre_markings: vec![],
            post: vec![],
            post_markings: vec![],
        },
    ];
    assert_eq!(
        format_transitions(transitions),
        "G = {\n\t{P1(1)} -> t1 -> {P2(1), P3(2)},\n\t{} -> t2 -> {}\n}\n"
    );
    assert_eq!(format_transitions(vec![]), "G = {\n\n}\n");
}

#[test]
fn smallest_fork_net_is_written() {
    let expected = "P = {P1, P2, P3}\n\
                    G = {\n\t{P1(1)} -> t1 -> {P2(1), P3(1)}\n}\n\
                    C = {t1}\n\
                    M = (1, 0, 0)\n\
                    L = (1)\n\
                    AP = {\n\t(phione, {(1, 0, 0)}),\t(phitwo, {(0, 1, 1)})\n}\n\
                    PHI = P((phione) U (phitwo), >= 0.5)";
    assert_eq!(PN1::get_input(1), expected);
}

#[test]
fn fork_net_with_chains_of_two_is_written() {
    let expected = "P = {P1, P2, P3, P4, P5}\n\
                    G = {\n\t{P1(1)} -> t1 -> {P2(1), P3(1)},\n\
                    \t{P2(1)} -> t2 -> {P4(1)},\n\
                    \t{P3(1)} -> t3 -> {P5(1)}\n}\n\
                    C = {t1, t2, t3}\n\
                    M = (1, 0, 0, 0, 0)\n\
                    L = (1, 0, 0)\n\
                    AP = {\n\t(phione, {(1, 0, 0, 0, 0), (0, 1, 1, 0, 0), (0, 1, 0, 0, 1), (0, 0, 1, 1, 0)}),\
                    \t(phitwo, {(0, 0, 0, 1, 1)})\n}\n\
                    PHI = P((phione) U (phitwo), >= 0.5)";
    assert_eq!(PN1::get_input(2), expected);
}

#[test]
fn fork_net_query_is_read() {
    let text = PN1::get_input(3);
    let formula = parse_formula(LogicType::Pctl, &text);
    assert!(formula.is_ok());
}
