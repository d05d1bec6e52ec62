//! Exhaustive exploration of failpoint paths.
//!
//! Instrumented code asks the engine, at each named failpoint, whether to
//! activate a fault or skip it. The engine records every decision prefix in a
//! tree and steers each new run towards a path that has not been taken yet,
//! until every reachable combination of decisions has been run once.
mod collections;
mod common;
mod error;
mod functions;
mod options;
mod runner;
mod state;
mod tree;

pub use collections::BranchVec;
pub use common::{Branch, Label};
pub use error::Error;
pub use functions::{can_visit_failpoint, enable_failpoints, failpoint_branch};
pub use options::Options;
pub use runner::Runner;
pub use state::State;
pub use tree::{
    count_exhausted, edge_pos, edge_view, lemma_coverage, lemma_finalize_progress,
    lemma_deterministic_runs_fresh, lemma_single_successor_fresh, lemma_start_idempotent,
    lemma_wf_facts, BackwardEdge,
    ExecutionStatus, ForwardEdges, Node, NodeId, Tree,
};
