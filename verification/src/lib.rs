//! A scheduler for computation graphs on a machine with a small fast memory and a large slow one.
//!
//! `models` holds the problem and the schedule. `graph`, `dataflow` and `components` order
//! operations and find what hangs together; `triage` and `tiles` cut large graphs into parts, and
//! `graph_rewrite` simplifies them, of which `sameness`, `rewrite_laws` and `dependence` tell what
//! it keeps. `memory`, `liveness`, `bitset_liveness` and `buffer_sharing` tell what fast memory
//! holds and when. `cost`, `cost_model`, `tiling`, `layout`, `optimizer` and `pipeline` weigh ways
//! to run a group of operations; `partition`, `parallel` and `scheduler` make schedules. `laws`
//! says what holds of all of their results.
//!
//! Quantities are whole numbers throughout: shares are percents, and times are given in
//! units small enough to be exact.

pub mod arith;
pub mod bitset_liveness;
pub mod buffer_sharing;
pub mod candidates;
pub mod components;
pub mod cost;
pub mod cost_model;
pub mod dataflow;
pub mod dependence;
pub mod graph;
pub mod graph_rewrite;
pub mod greedy;
pub mod hw_profile;
pub mod ids;
pub mod kernels;
pub mod laws;
pub mod layout;
pub mod liveness;
pub mod memory;
pub mod models;
pub mod optimizer;
pub mod parallel;
pub mod partition;
pub mod pipeline;
pub mod rewrite_graph;
pub mod rewrite_laws;
pub mod sameness;
pub mod scheduler;
pub mod snake;
pub mod sorting;
pub mod telemetry;
pub mod text;
pub mod tiles;
pub mod tiling;
pub mod triage;
pub mod weight_stationary;
