//! One-sided crossing minimisation by penalty-graph heuristics and local search.
pub mod crossing;
pub mod permutation;
pub mod interconnection;
pub mod problem;
pub mod interrupt;
pub mod single_float;
pub mod pengraph;
pub mod strong_components;
pub mod condensed_order;
pub mod heuristic_solver;
pub mod input_check;
