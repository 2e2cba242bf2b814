//! Planning, scheduling and reporting for statistically careful benchmarks.

use vstd::prelude::*;

pub mod assemble;
pub mod assembly_laws;
pub mod clock;
pub mod diagnostic;
pub mod family;
pub mod filter;
pub mod filter_laws;
pub mod grid;
pub mod grid_laws;
pub mod inputs;
pub mod invariance;
pub mod ladder;
pub mod lane;
pub mod layout;
pub mod lines;
pub mod lists;
pub mod machine;
pub mod mask;
pub mod order;
pub mod pairings;
pub mod plan_laws;
pub mod quiet;
pub mod quiet_laws;
pub mod registry;
pub mod reorder;
pub mod report;
pub mod report_laws;
pub mod reserve;
pub mod reserve_laws;
pub mod resolve;
pub mod runner;
pub mod sampling;
pub mod scheduler;
pub mod suite;
pub mod suite_laws;
pub mod text;
pub mod text_laws;
pub mod timings;
pub mod version;

verus! {

} // verus!
