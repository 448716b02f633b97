//! Force-directed layout of a small graph: the edge relation and how it is
//! read from an edge list, the safeguards that keep the simulation bounded,
//! and the per-frame pause decision.
pub mod stability;
pub mod topology;
pub mod edge_list;
pub mod control;
