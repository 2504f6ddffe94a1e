//! A probabilistic model checker for Markov decision processes: PCTL
//! evaluation by fixpoints and value iteration, and LTL evaluation through
//! deterministic Rabin automata.

pub mod comp;
pub mod error;
pub mod fixpoint;
pub mod graph;
pub mod listset;
pub mod logic;
pub mod ltl;
pub mod mdp;
pub mod pctl;
pub mod petri;
pub mod render;
pub mod roundtrip;
pub mod samples;
pub mod syntax;
pub mod utils;
pub mod value_iteration;
