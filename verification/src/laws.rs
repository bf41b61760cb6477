//! What holds of the results, said over the problem and the results alone: which tensors,
//! operations and numbers a result must hold, and how results for different inputs compare.

pub mod choices;
pub mod costs;
pub mod edges;
pub mod flow;
pub mod fusions;
pub mod granularities;
pub mod groups;
pub mod layouts;
pub mod lifetimes;
pub mod limits;
pub mod machines;
pub mod numbers;
pub mod rewrites;
pub mod shapes;
pub mod sharing;
pub mod slots;
pub mod strategies;
pub mod topology;
pub mod transfers;
pub mod weights;
pub mod working_sets;
