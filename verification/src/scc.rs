//! Speculative scheduling by semantic conflicts: which transactions of a batch
//! must see each other, and how the effects of the others are merged.

pub mod commit;
pub mod condition;
pub mod dag;
pub mod delta;
pub mod plan;
pub mod read;
pub mod tables;

pub use commit::{CommitSequence, CommitSlotState};
pub use condition::check_success_path_condition;
pub use dag::{DagRuntime, SccDagRuntime, SccReady};
pub use delta::{
    apply_delta_to_state, filter_delta_to_keys, output_to_delta, DeltaOp, InodeIntegerField, TxDelta,
};
pub use plan::{build_scc_batch_plan, DagNode, SccBatchPlan, SccPhase, SccTxPlan, SemanticDag};
pub use read::{materialized_local_read, MaterializedRead};
pub use tables::{
    classify_actual_path, conflict_mask, predicted_path, semantic_tables, ConflictMask, PathId,
    SemanticKey, SemanticTable, SemanticTables,
};
