//! A batch that runs on a snapshot: every transaction runs once, on the state before
//! the batch; those that read or wrote what an earlier one wrote are run again.

pub mod batch;
pub mod coordinator;
pub mod fallback;
pub mod registry;
pub mod run;
pub mod state;

use crate::model;
use crate::model::{BatchId, ShardId, TxId, TxResult, WriteOp, WriteOpView};
use vstd::prelude::*;

verus! {

/// The shard that runs a transaction and answers for it.
pub open spec fn result_shard(tx_id: TxId, shard_count: u64) -> ShardId {
    tx_id % shard_count
}

pub fn aria_result_shard(tx_id: TxId, shard_count: u64) -> (r: ShardId)
    requires
        shard_count > 0,
    ensures
        r == result_shard(tx_id, shard_count),
        r < shard_count,
{
    tx_id % shard_count
}

/// What the shard that ran a transaction tells a shard of it.
#[derive(Debug)]
pub struct AriaStageOutcome {
    pub batch_id: BatchId,
    pub tx_index: usize,
    pub tx_id: TxId,
    pub from_shard: ShardId,
    pub result: TxResult,
    pub writes: Vec<WriteOp>,
    pub is_result_shard: bool,
}

#[verifier::ext_equal]
pub struct StageView {
    pub batch_id: BatchId,
    pub tx_index: usize,
    pub tx_id: TxId,
    pub from_shard: ShardId,
    pub result: TxResult,
    pub writes: Seq<WriteOpView>,
    pub is_result_shard: bool,
}

impl View for AriaStageOutcome {
    type V = StageView;

    open spec fn view(&self) -> StageView {
        StageView {
            batch_id: self.batch_id,
            tx_index: self.tx_index,
            tx_id: self.tx_id,
            from_shard: self.from_shard,
            result: self.result,
            writes: model::write_views(self.writes@),
            is_result_shard: self.is_result_shard,
        }
    }
}

} // verus!
