//! Linear temporal logic: formulae in negation normal form, and the chain
//! of automata that turns a formula into a deterministic Rabin automaton.


pub mod ba;
pub mod common;
pub mod formula;
pub mod gba;
pub mod mdpa;
pub mod powerba;
pub mod safra;
pub mod vwaa;
