//! Recognition of path-like strings by a nondeterministic finite automaton.
//!
//! An automaton is built state by state with [`NFA::put`] and its
//! companions, and a string is matched against it with [`NFA::process`],
//! which follows every path through the automaton at once and returns the
//! state of the winning path with the pieces of the string it captured.

pub mod bits;
pub mod charset;
pub mod class;
pub mod laws;
pub mod model;
pub mod nfa;
pub mod order;
pub mod outcome;
pub mod state;
pub mod thread;

pub use crate::charset::CharSet;
pub use crate::class::CharacterClass;
pub use crate::nfa::NFA;
pub use crate::outcome::{Match, MatchError};
pub use crate::state::State;
pub use crate::thread::Thread;
