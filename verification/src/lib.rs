//! A Wireworld cellular automaton engine.
//!
//! The grid holds four-state cells that evolve under the fixed Wireworld
//! rule. Stepping is incremental: a dirty set tracks every coordinate whose
//! value could change on the next tick, so a tick costs time proportional to
//! the live region instead of the whole grid. The engine's contracts prove
//! that this incremental scheme produces exactly the same states as a
//! brute-force recomputation of every cell.

pub mod board;
pub mod cell;
pub mod dirty;
pub mod engine;
pub mod error;
pub mod grid;
pub mod transition;
