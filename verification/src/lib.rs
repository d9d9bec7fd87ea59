//! Synthetic workload core for benchmarking memo-table storage backends:
//! a deterministic memo-graph generator, a group shuffler that fragments
//! oversized groups, and a rule-traversal simulator over the generated graph.

pub mod bench;
pub mod dump;
pub mod generator;
pub mod genmodel;
pub mod memo;
pub mod oracle;
pub mod rng;
pub mod shuffle;
pub mod traverse;

use vstd::prelude::*;

verus! {

/// Errors surfaced by the workload core.
#[derive(Clone, Copy, PartialEq, Eq, Structural, Debug)]
pub enum MemoError {
    /// A referenced group or expression id does not name an existing entity.
    ReferentialIntegrity,
    /// Generation did not reach its target within the given draw budget.
    GenerationStall,
}

} // verus!
