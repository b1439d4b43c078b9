//! A deterministic pushdown automaton: states and guarded stack transitions are
//! declared on a [`DPDA`], then a [`Runner`] feeds it input symbols and reports
//! what each step popped and whether the run accepts.

pub mod automaton;
pub mod graph;
pub mod runner;

pub use automaton::{Action, Declared, Transition, DPDA};
pub use graph::{Edge, Graph};
pub use runner::{Runner, TransitionError};
