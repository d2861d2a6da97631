//! Finite automata over labelled states: construction with structural
//! deduplication, epsilon-closure, determinism checks and subset construction,
//! with the accepted language of the result proved equal to the source's.

pub mod edge_store;
pub mod finite_automata;
pub mod language;
pub mod pretty_print;

pub use edge_store::EdgeStore;
pub use finite_automata::{FiniteAutomata, MissingStateError, NodeGroup, Transition, DFA_CAPACITY};
pub use pretty_print::{PrettyState, PrettyTransition, Symbol};
