//! A cellular automaton over an arbitrary directed graph.
//!
//! Each node carries a double-buffered state: a `read` value, frozen for the
//! duration of a tick, and a `write` value being computed for the next tick.
//! Per-state rule lists of recursive predicates over neighbor-state counts
//! decide every node's next state; `Automaton::step` swaps the buffers and
//! evaluates every node against the frozen snapshot.

use vstd::prelude::*;

pub mod automaton;
pub mod codec;
pub mod graph;
pub mod rules;

verus! {

} // verus!
