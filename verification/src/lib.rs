//! The 3x3 sliding-tile puzzle: boards and slides, best-first search for a
//! goal with exchangeable estimates, and the tree of a search laid out for
//! drawing in a viewport.

pub mod closed;
pub mod draw;
pub mod entry;
pub mod graph;
pub mod heap;
pub mod heuristic;
pub mod layout;
pub mod open_set;
pub mod paint;
pub mod parity;
pub mod puzzle;
pub mod random;
pub mod search;
pub mod sizer;
pub mod solution;
pub mod solution_map;
pub mod tree;
pub mod view;
