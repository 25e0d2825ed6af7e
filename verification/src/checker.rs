//! Checks of a finished run: the state against a serial execution, the reported
//! orders and results against each other.

pub mod merge;
pub mod reference;
pub mod reports;
pub mod results;

pub use merge::{assert_state_matches, merge_shard_states};
pub use reference::{reference_execute_batches, reference_execute_scc_reordered_batches};
pub use reports::assert_scc_reorders_consistent;
pub use results::{assert_aria_tx_results_consistent, assert_tx_results_consistent};
