//! Running again, under locks, what did not stand.

use crate::collections::{OrdMap, OrdSet};
use crate::engine::aria;
use crate::engine::aria::aria_result_shard;
use crate::engine::batch;
use crate::engine::batch::{sort_records, validate_batch_order, BatchExecutionSummary};
use crate::engine::calvin;
use crate::engine::locked_run::LockedWorker;
use crate::engine::reorder;
use crate::engine::reorder::tx_with_derived_sets;
use crate::error::{BatchFault, Error, Result};
use crate::lock;
use crate::lock::{LockGrant, LockTable, Queues};
use crate::model::{
    Batch, BatchId, Key, OrderedTx, OrderedTxView, ReadPhase, ShardId, TxId, TxResult,
    TxResultRecord,
};
use crate::path::Path;
use crate::router;
use crate::router::ShardLayout;
use vstd::prelude::*;

verus! {

/// The shards that run a transaction again: those of the keys it may write, and the one
/// that answers for it.
pub open spec fn active_shards(shard_count: u64, tx: OrderedTxView) -> Set<ShardId> {
    router::shards_of(shard_count, tx.write_set).insert(
        aria::result_shard(tx.tx_id, shard_count),
    )
}

pub fn aria_fallback_active_shards(layout: &ShardLayout, tx: &OrderedTx) -> (r: OrdSet<ShardId>)
    requires
        layout.wf(),
    ensures
        r@ == active_shards(layout.shard_count, tx@),
{
    let mut active = layout.shards_for_keys(&tx.write_set);
    let _ = active.insert(aria_result_shard(tx.tx_id, layout.shard_count));
    active
}

/// What a worker is given to run a transaction again.
#[derive(Debug)]
pub struct AriaFallbackWork {
    /// The transaction, with the key sets of its operation.
    pub tx: OrderedTx,
    pub result_shard: ShardId,
    pub active: OrdSet<ShardId>,
    pub read_sources: OrdSet<ShardId>,
    pub local_keys: OrdSet<Key>,
    /// Whether this shard runs the transaction.
    pub is_active: bool,
    /// Whether this shard serves reads of the transaction.
    pub is_source: bool,
}

/// `work` is what is to be done for `tx` on shard `shard_id`.
pub open spec fn is_work(
    shard_count: u64,
    shard_id: ShardId,
    tx: OrderedTxView,
    work: AriaFallbackWork,
) -> bool {
    let derived = reorder::with_derived_sets(tx);
    &&& work.tx@ == derived
    &&& work.result_shard == aria::result_shard(tx.tx_id, shard_count)
    &&& work.active@ == active_shards(shard_count, derived)
    &&& work.read_sources@ == router::shards_of(shard_count, derived.read_set)
    &&& work.local_keys@ == calvin::local_keys_of(shard_count, derived, shard_id)
    &&& work.is_active == work.active@.contains(shard_id)
    &&& work.is_source == work.read_sources@.contains(shard_id)
}

/// A transaction concerns shard `shard_id`.
pub open spec fn concerns(shard_count: u64, shard_id: ShardId, tx: OrderedTxView) -> bool {
    let derived = reorder::with_derived_sets(tx);
    ||| calvin::local_keys_of(shard_count, derived, shard_id) != Set::<Path>::empty()
    ||| active_shards(shard_count, derived).contains(shard_id)
    ||| router::shards_of(shard_count, derived.read_set).contains(shard_id)
}

/// How a worker ended.
#[derive(Clone, Copy, Debug)]
pub enum AriaFallbackCompletion {
    Active { result: TxResult, record: Option<TxResultRecord> },
    Passive,
}

/// The end of a worker that ran a transaction: only the shard that answers for it makes
/// a record.
pub fn aria_fallback_completion(
    tx_id: TxId,
    result_shard: ShardId,
    shard_id: ShardId,
    result: TxResult,
) -> (r: AriaFallbackCompletion)
    ensures
        r == (AriaFallbackCompletion::Active {
            result,
            record: if result_shard == shard_id {
                Some(TxResultRecord { tx_id, shard_id, result })
            } else {
                None
            },
        }),
{
    let record = if result_shard == shard_id {
        Some(TxResultRecord { tx_id, shard_id, result })
    } else {
        None
    };
    AriaFallbackCompletion::Active { result, record }
}

/// A batch of transactions that run again on this shard.
pub struct AriaFallbackBatch {
    batch_id: BatchId,
    shard_id: ShardId,
    layout: ShardLayout,
    locks: LockTable,
    pending: OrdSet<TxId>,
    active_results: OrdMap<TxId, TxResult>,
    results: Vec<TxResultRecord>,
}

#[verifier::ext_equal]
pub struct AriaFallbackView {
    pub batch_id: BatchId,
    pub shard_id: ShardId,
    pub shard_count: u64,
    pub queues: Queues,
    pub pending: Set<TxId>,
    pub active_results: Map<TxId, TxResult>,
    pub results: Seq<TxResultRecord>,
}

impl View for AriaFallbackBatch {
    type V = AriaFallbackView;

    closed spec fn view(&self) -> AriaFallbackView {
        AriaFallbackView {
            batch_id: self.batch_id,
            shard_id: self.shard_id,
            shard_count: self.layout.shard_count,
            queues: self.locks@,
            pending: self.pending@,
            active_results: self.active_results@,
            results: self.results@,
        }
    }
}

impl AriaFallbackView {
    /// The same once a worker has ended.
    pub open spec fn completed(
        self,
        tx_id: TxId,
        completion: AriaFallbackCompletion,
    ) -> AriaFallbackView {
        match completion {
            AriaFallbackCompletion::Passive => self,
            AriaFallbackCompletion::Active { result, record } => AriaFallbackView {
                active_results: self.active_results.insert(tx_id, result),
                results: match record {
                    Some(record) => self.results.push(record),
                    None => self.results,
                },
                ..self
            },
        }
    }

    /// A worker of the same transaction came to another result.
    pub open spec fn disagrees(self, tx_id: TxId, completion: AriaFallbackCompletion) -> bool {
        match completion {
            AriaFallbackCompletion::Passive => false,
            AriaFallbackCompletion::Active { result, .. } => self.active_results.contains_key(tx_id)
                && self.active_results[tx_id] != result,
        }
    }
}

impl AriaFallbackBatch {
    /// There is a shard at all.
    pub closed spec fn wf(&self) -> bool {
        self.layout.wf()
    }

    /// Begins a batch whose order is sound.
    pub fn begin(batch: &Batch, layout: ShardLayout, shard_id: ShardId) -> (r: Result<Self>)
        requires
            layout.wf(),
        ensures
            match r {
                Ok(run) => {
                    &&& batch::in_order(batch@.txs, batch@.txs.len() as int)
                    &&& run.wf()
                    &&& run@ == (AriaFallbackView {
                        batch_id: batch@.batch_id,
                        shard_id,
                        shard_count: layout.shard_count,
                        queues: Map::empty(),
                        pending: Set::empty(),
                        active_results: Map::empty(),
                        results: Seq::empty(),
                    })
                },
                Err(error) => {
                    &&& !batch::in_order(batch@.txs, batch@.txs.len() as int)
                    &&& batch::order_error(batch@, error)
                },
            },
    {
        match validate_batch_order(batch) {
            Ok(_) => {},
            Err(error) => return Err(error),
        }
        Ok(
            AriaFallbackBatch {
                batch_id: batch.batch_id,
                shard_id,
                layout,
                locks: LockTable::new(),
                pending: OrdSet::new(),
                active_results: OrdMap::new(),
                results: Vec::new(),
            },
        )
    }

    /// Takes the next transaction in: lines it up for its local keys. Nothing where it
    /// does not concern this shard.
    pub fn take_in(&mut self, tx: &OrderedTx) -> (r: Result<Option<AriaFallbackWork>>)
        requires
            old(self).wf(),
        ensures
            final(self).wf(),
            ({
                let v = old(self)@;
                let keys = calvin::local_keys_of(
                    v.shard_count,
                    reorder::with_derived_sets(tx@),
                    v.shard_id,
                );
                match r {
                    Ok(Some(work)) => {
                        &&& concerns(v.shard_count, v.shard_id, tx@)
                        &&& is_work(v.shard_count, v.shard_id, tx@, work)
                        &&& final(self)@ == (AriaFallbackView {
                            queues: lock::lined_up(v.queues, tx@.tx_id, keys),
                            pending: v.pending.insert(tx@.tx_id),
                            ..v
                        })
                    },
                    Ok(None) => !concerns(v.shard_count, v.shard_id, tx@) && final(self)@ == v,
                    Err(_) => false,
                }
            }),
    {
        let tx = tx_with_derived_sets(tx)?;
        let local_keys = self.layout.local_lock_keys(&tx, self.shard_id);
        let result_shard = aria_result_shard(tx.tx_id, self.layout.shard_count);
        let active = aria_fallback_active_shards(&self.layout, &tx);
        let read_sources = self.layout.shards_for_keys(&tx.read_set);
        let is_active = active.contains(&self.shard_id);
        let is_source = read_sources.contains(&self.shard_id);
        if local_keys.is_empty() && !is_active && !is_source {
            return Ok(None);
        }
        self.locks.enqueue(tx.tx_id, &local_keys);
        let _ = self.pending.insert(tx.tx_id);
        Ok(
            Some(
                AriaFallbackWork {
                    tx,
                    result_shard,
                    active,
                    read_sources,
                    local_keys,
                    is_active,
                    is_source,
                },
            ),
        )
    }

    /// Who does `work`.
    pub fn worker(&self, work: &AriaFallbackWork) -> (r: LockedWorker)
        requires
            self.wf(),
        ensures
            r.wf(),
            r.phase == ReadPhase::AriaFallback,
            r.batch_id == self@.batch_id,
            r.shard_id == self@.shard_id,
            r.layout.shard_count == self@.shard_count,
            r.tx@ == work.tx@,
            r.active@ == work.active@,
            r.sources@ == work.read_sources@,
    {
        LockedWorker {
            phase: ReadPhase::AriaFallback,
            batch_id: self.batch_id,
            shard_id: self.shard_id,
            layout: self.layout,
            tx: work.tx.clone(),
            active: work.active.clone(),
            sources: work.read_sources.clone(),
        }
    }

    /// The grants to whoever is first in line once all transactions are in.
    pub fn start(&self) -> (r: Vec<(TxId, LockGrant)>)
        ensures
            ({
                let keys = crate::collections::sorted::<Key>(self@.queues.dom());
                &&& r@.len() == keys.len()
                &&& forall|i: int|
                    0 <= i < keys.len() ==> (#[trigger] lock::grant_views(r@)[i]) == (
                        self@.queues[keys[i]][0],
                        keys[i],
                    )
            }),
    {
        self.locks.grant_initial_heads()
    }

    /// Takes the outcome of a worker: passes its locks on, then notes its result.
    pub fn on_outcome(
        &mut self,
        tx_id: TxId,
        local_keys: &OrdSet<Key>,
        outcome: Result<AriaFallbackCompletion>,
        grants: &mut Vec<(TxId, LockGrant)>,
    ) -> (r: Result<()>)
        requires
            old(self).wf(),
        ensures
            final(self).wf(),
            ({
                let v = old(self)@;
                let keys = crate::collections::sorted::<Key>(local_keys@);
                let released = forall|k: Path| #[trigger]
                    local_keys@.contains(k) ==> lock::holds(v.queues, tx_id, k);
                let passed_on = AriaFallbackView {
                    queues: lock::moved_up(v.queues, local_keys@),
                    pending: v.pending.remove(tx_id),
                    ..v
                };
                let granted = lock::grant_views(final(grants)@) == lock::grant_views(old(grants)@)
                    + lock::next_grants(v.queues, keys);
                match r {
                    Ok(_) => match outcome {
                        Ok(completion) => {
                            &&& released && granted
                            &&& !v.disagrees(tx_id, completion)
                            &&& final(self)@ == passed_on.completed(tx_id, completion)
                        },
                        Err(_) => false,
                    },
                    Err(error) => {
                        ||| {
                            &&& released && granted
                            &&& outcome == Err::<AriaFallbackCompletion, Error>(error)
                            &&& final(self)@ == passed_on
                        }
                        ||| {
                            &&& released && granted
                            &&& outcome is Ok && v.disagrees(tx_id, outcome->Ok_0)
                            &&& error == Error::InvalidBatch(
                                BatchFault::AriaDisagreement {
                                    tx_id,
                                    first: v.active_results[tx_id],
                                    second: outcome->Ok_0->Active_result,
                                },
                            )
                            &&& final(self)@ == (AriaFallbackView {
                                active_results: v.active_results.insert(
                                    tx_id,
                                    outcome->Ok_0->Active_result,
                                ),
                                ..passed_on
                            })
                        }
                        ||| {
                            &&& !released
                            &&& final(self)@ == (AriaFallbackView {
                                queues: final(self)@.queues,
                                ..v
                            })
                            &&& lock::release_error(
                                v.queues,
                                tx_id,
                                keys,
                                final(self)@.queues,
                                lock::grant_views(old(grants)@),
                                lock::grant_views(final(grants)@),
                                error,
                            )
                        }
                    },
                }
            }),
    {
        match self.locks.release_and_grant_next(tx_id, local_keys, grants) {
            Ok(_) => {},
            Err(error) => return Err(error),
        }
        let _ = self.pending.remove(&tx_id);
        match outcome {
            Ok(AriaFallbackCompletion::Active { result, record }) => {
                match self.active_results.insert(tx_id, result) {
                    Some(previous) => {
                        if previous != result {
                            return Err(
                                Error::InvalidBatch(
                                    BatchFault::AriaDisagreement {
                                        tx_id,
                                        first: previous,
                                        second: result,
                                    },
                                ),
                            );
                        }
                    },
                    None => {},
                }
                match record {
                    Some(record) => self.results.push(record),
                    None => {},
                }
                Ok(())
            },
            Ok(AriaFallbackCompletion::Passive) => Ok(()),
            Err(error) => Err(error),
        }
    }

    /// Whether every worker has reported.
    pub fn is_done(&self) -> (r: bool)
        ensures
            r == (self@.pending == Set::<TxId>::empty()),
    {
        self.pending.is_empty()
    }

    /// What this shard reports of the batch.
    pub fn finish(self) -> (r: BatchExecutionSummary)
        ensures
            r.batch_id == self@.batch_id,
            r.shard_id == self@.shard_id,
            batch::sorted_from(self@.results, r.tx_results@),
            r.tx_results@.len() == self@.results.len(),
    {
        BatchExecutionSummary {
            batch_id: self.batch_id,
            shard_id: self.shard_id,
            tx_results: sort_records(&self.results),
        }
    }
}

} // verus!
