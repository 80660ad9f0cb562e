//! Verified core of a metaheuristic solver: candidate moves with tabu
//! bookkeeping, incremental deltas, semantic variable groups, constraint
//! stream definitions and key extraction over fact tuples.
use vstd::prelude::*;

pub mod candidate;
pub mod random;
pub mod mover;
pub mod move_laws;
pub mod tabu_moves;
pub mod variables;
pub mod facts;
pub mod columns;
pub mod variable_names;
pub mod termination;
pub mod entity_index;
pub mod late_acceptance;
pub mod solver_setup;
pub mod stream_def;

verus! {

} // verus!
