//! Problem-specific core of a branch-and-bound solver for the travelling
//! salesman problem with time windows (TSPTW): the dynamic-programming state
//! model, the transition and cost functions, the state-merging relaxation and
//! its optimistic bound, and the search heuristics that a generic
//! decision-diagram engine consumes.

pub mod bits;
pub mod instance;
pub mod state;
pub mod model;
pub mod relax;
pub mod heuristics;
pub mod laws;
