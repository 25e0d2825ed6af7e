//! What a shard and the sequencer decide while they run: each decision is a
//! function of what is known and what just happened.

pub mod aria;
pub mod batch;
pub mod calvin;
pub mod config;
pub mod locked_run;
pub mod profile;
pub mod reads;
pub mod registry;
pub mod reorder;
pub mod scc_batch;
pub mod scc_run;
pub mod scc_worker;
pub mod sequencer;

pub use aria::AriaStageOutcome;
pub use batch::BatchExecutionSummary;
pub use config::{SchedulerKind, ShardConfig};
pub use reads::{LocalReadResult, LockWait, ReadCollector};
pub use registry::{ClientTxResult, ReadResultMailboxRegistry, TxResultRegistry};
pub use sequencer::{
    Sequencer, SequencerConfig, SequencerResultPolicy, SubmitBatchSummary, SubmitTxAck,
};
