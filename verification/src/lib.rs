//! A deterministic finite automaton that is stepped one symbol at a time,
//! can undo its most recent steps, and can be reset and reused.
//!
//! * [`model`] is the mathematical automaton that every contract speaks of.
//! * [`machine`] is the executable engine [`M`], whose view is that automaton.
//! * [`laws`] proves what holds of whole runs: determinism, trap absorption,
//!   the symmetry of stepping and rolling back, and what a reset forgets.

pub mod laws;
pub mod machine;
pub mod model;

pub use machine::M;
pub use model::{Automaton, MaybeState};
