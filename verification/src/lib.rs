//! A solver for a fixed-layout card-stacking puzzle: nine ordered ranks are
//! spread over a row of columns, cards move between columns under a successor
//! rule (with a one-card "cheat" slot per column as an escape hatch), and the
//! goal is to collapse every column into a complete descending run.
//!
//! The crate models boards and moves, proves that move application conserves
//! the cards on the board, and provides breadth-first and best-first searches
//! that return a machine-checked-legal sequence of moves.

pub mod cards;
pub mod moves;
pub mod search;
