//! Solving and path planning for colour-pair "flow" grid puzzles.
//!
//! A puzzle is a fixed-size grid in which every colour owns exactly two
//! endpoint cells; a solution connects each pair by an unbroken 4-connected
//! path and (ideally) fills the whole grid.  The crate provides:
//!
//! * [`grid`] — a bounds-aware byte matrix with sentinel reads,
//! * [`solver`] — constraint propagation with speculative backtracking,
//! * [`pathfind`] — a greedy stroke planner that turns a solved grid into
//!   plotter movement instructions,
//!
//! together with the pure data side of the surrounding application: the
//! plotter wire encodings ([`protocol`], [`control`]), dot classification
//! over camera frames ([`image`], [`classify`]), and small presentation
//! types ([`render`], [`camera`]).

pub mod camera;
pub mod classify;
pub mod control;
pub mod grid;
pub mod image;
pub mod pathfind;
pub mod protocol;
pub mod render;
pub mod solver;
