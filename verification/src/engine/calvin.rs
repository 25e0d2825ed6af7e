//! A batch under deterministic locks.

use crate::collections::OrdSet;
use crate::engine::batch;
use crate::engine::batch::{sort_records, validate_batch_order, BatchExecutionSummary};
use crate::engine::locked_run::LockedWorker;
use crate::error::{Error, Result};
use crate::executor;
use crate::executor::validate_sets;
use crate::lock;
use crate::lock::{LockGrant, LockTable, Queues};
use crate::model::{
    Batch, BatchId, FsOpView, Key, OrderedTx, OrderedTxView, ReadPhase, ShardId, TxId,
    TxResultRecord,
};
use crate::path::Path;
use crate::router;
use crate::router::{Participants, ShardLayout};
use vstd::prelude::*;

verus! {

/// What a worker for a transaction is given.
#[derive(Debug)]
pub struct CalvinWork {
    pub participants: Participants,
    pub result_shard: ShardId,
    pub local_keys: OrdSet<Key>,
    /// Whether this shard runs the transaction, and does not only serve its reads.
    pub active: bool,
}

/// What is to be done for a transaction when a batch begins.
#[derive(Debug)]
pub struct CalvinStep {
    /// Whether this shard answers to the client.
    pub responsible: bool,
    /// The work, where the transaction has keys on this shard.
    pub work: Option<CalvinWork>,
}

/// The key sets of a transaction are those of its operation.
pub open spec fn sets_match(tx: OrderedTxView) -> bool {
    tx.read_set == executor::read_keys(tx.op) && tx.write_set == executor::write_keys(tx.op)
}

/// The active shards of a transaction.
pub open spec fn active_shards(shard_count: u64, tx: OrderedTxView) -> Set<ShardId> {
    router::participants_of(shard_count, tx.read_set, tx.write_set).active
}

/// The keys of a transaction on a shard.
pub open spec fn local_keys_of(shard_count: u64, tx: OrderedTxView, shard_id: ShardId) -> Set<
    Path,
> {
    router::local_part(shard_count, tx.read_set.union(tx.write_set), shard_id)
}

/// `step` is what is to be done for `tx` on shard `shard_id`.
pub open spec fn is_step(
    shard_count: u64,
    shard_id: ShardId,
    tx: OrderedTxView,
    step: CalvinStep,
) -> bool {
    let active = active_shards(shard_count, tx);
    let keys = local_keys_of(shard_count, tx, shard_id);
    &&& step.responsible == router::least_shard(active, shard_id)
    &&& match step.work {
        None => keys == Set::<Path>::empty(),
        Some(work) => {
            &&& keys != Set::<Path>::empty()
            &&& work.participants@ == router::participants_of(
                shard_count,
                tx.read_set,
                tx.write_set,
            )
            &&& router::least_shard(active, work.result_shard)
            &&& work.local_keys@ == keys
            &&& work.active == active.contains(shard_id)
        },
    }
}

/// A batch while it runs on this shard.
pub struct CalvinBatch {
    batch_id: BatchId,
    shard_id: ShardId,
    layout: ShardLayout,
    locks: LockTable,
    pending: OrdSet<TxId>,
    results: Vec<TxResultRecord>,
}

#[verifier::ext_equal]
pub struct CalvinView {
    pub batch_id: BatchId,
    pub shard_id: ShardId,
    pub shard_count: u64,
    pub queues: Queues,
    pub pending: Set<TxId>,
    pub results: Seq<TxResultRecord>,
}

impl View for CalvinBatch {
    type V = CalvinView;

    closed spec fn view(&self) -> CalvinView {
        CalvinView {
            batch_id: self.batch_id,
            shard_id: self.shard_id,
            shard_count: self.layout.shard_count,
            queues: self.locks@,
            pending: self.pending@,
            results: self.results@,
        }
    }
}

/// An operation reads some key.
pub proof fn lemma_reads_something(op: FsOpView)
    ensures
        executor::read_keys(op) != Set::<Path>::empty(),
{
    let target = crate::scc::tables::target_of(op);
    assert(executor::read_keys(op).contains(target));
}

/// There is at most one least shard.
pub proof fn lemma_least_shard_unique(shards: Set<ShardId>, a: ShardId, b: ShardId)
    requires
        router::least_shard(shards, a),
        router::least_shard(shards, b),
    ensures
        a == b,
{
}

/// The shard that answers for a transaction whose sets were checked.
pub fn result_shard_of(layout: &ShardLayout, tx: &OrderedTx) -> (r: ShardId)
    requires
        layout.wf(),
        sets_match(tx@),
    ensures
        router::least_shard(active_shards(layout.shard_count, tx@), r),
{
    match layout.result_shard(tx) {
        Some(shard) => shard,
        None => {
            proof {
                lemma_reads_something(tx@.op);
            }
            0
        },
    }
}

impl CalvinBatch {
    /// There is a shard at all.
    pub closed spec fn wf(&self) -> bool {
        self.layout.wf()
    }

    /// Begins a batch whose order is sound.
    pub fn begin(batch: &Batch, layout: ShardLayout, shard_id: ShardId) -> (r: Result<Self>)
        requires
            layout.wf(),
        ensures
            match r {
                Ok(run) => {
                    &&& batch::in_order(batch@.txs, batch@.txs.len() as int)
                    &&& run.wf()
                    &&& run@ == (CalvinView {
                        batch_id: batch@.batch_id,
                        shard_id,
                        shard_count: layout.shard_count,
                        queues: Map::empty(),
                        pending: Set::empty(),
                        results: Seq::empty(),
                    })
                },
                Err(error) => {
                    &&& !batch::in_order(batch@.txs, batch@.txs.len() as int)
                    &&& batch::order_error(batch@, error)
                },
            },
    {
        match validate_batch_order(batch) {
            Ok(_) => {},
            Err(error) => return Err(error),
        }
        Ok(
            CalvinBatch {
                batch_id: batch.batch_id,
                shard_id,
                layout,
                locks: LockTable::new(),
                pending: OrdSet::new(),
                results: Vec::new(),
            },
        )
    }

    /// Takes the next transaction of the batch in: lines it up for its local keys.
    pub fn take_in(&mut self, tx: &OrderedTx) -> (r: Result<CalvinStep>)
        requires
            old(self).wf(),
        ensures
            final(self).wf(),
            match r {
                Ok(step) => {
                    let keys = local_keys_of(old(self)@.shard_count, tx@, old(self)@.shard_id);
                    &&& sets_match(tx@)
                    &&& is_step(old(self)@.shard_count, old(self)@.shard_id, tx@, step)
                    &&& final(self)@ == (if keys == Set::<Path>::empty() {
                        old(self)@
                    } else {
                        CalvinView {
                            queues: lock::lined_up(old(self)@.queues, tx@.tx_id, keys),
                            pending: old(self)@.pending.insert(tx@.tx_id),
                            ..old(self)@
                        }
                    })
                },
                Err(error) => {
                    &&& !sets_match(tx@)
                    &&& executor::sets_error(tx@, error)
                    &&& final(self)@ == old(self)@
                },
            },
    {
        match validate_sets(tx) {
            Ok(_) => {},
            Err(error) => return Err(error),
        }
        let result_shard = result_shard_of(&self.layout, tx);
        let responsible = result_shard == self.shard_id;
        proof {
            let active = active_shards(self.layout.shard_count, tx@);
            if router::least_shard(active, self.shard_id) {
                lemma_least_shard_unique(active, self.shard_id, result_shard);
            }
        }
        let local_keys = self.layout.local_lock_keys(tx, self.shard_id);
        if local_keys.is_empty() {
            return Ok(CalvinStep { responsible, work: None });
        }
        self.locks.enqueue(tx.tx_id, &local_keys);
        let _ = self.pending.insert(tx.tx_id);
        let participants = self.layout.participants(tx);
        let active = participants.active.contains(&self.shard_id);
        Ok(
            CalvinStep {
                responsible,
                work: Some(CalvinWork { participants, result_shard, local_keys, active }),
            },
        )
    }

    /// Who does the work for `tx`.
    pub fn worker(&self, tx: &OrderedTx, work: &CalvinWork) -> (r: LockedWorker)
        requires
            self.wf(),
        ensures
            r.wf(),
            r.phase == ReadPhase::Calvin,
            r.batch_id == self@.batch_id,
            r.shard_id == self@.shard_id,
            r.layout.shard_count == self@.shard_count,
            r.tx@ == tx@,
            r.active@ == work.participants@.active,
            r.sources@ == work.participants@.all,
    {
        LockedWorker {
            phase: ReadPhase::Calvin,
            batch_id: self.batch_id,
            shard_id: self.shard_id,
            layout: self.layout,
            tx: tx.clone(),
            active: work.participants.active.clone(),
            sources: work.participants.all.clone(),
        }
    }

    /// The grants to whoever is first in line once all transactions are in.
    pub fn start(&self) -> (r: Vec<(TxId, LockGrant)>)
        ensures
            ({
                let keys = crate::collections::sorted::<Key>(self@.queues.dom());
                &&& r@.len() == keys.len()
                &&& forall|i: int|
                    0 <= i < keys.len() ==> (#[trigger] lock::grant_views(r@)[i]) == (
                        self@.queues[keys[i]][0],
                        keys[i],
                    )
            }),
    {
        self.locks.grant_initial_heads()
    }

    /// Takes the outcome of a worker: passes its locks on, then notes its result.
    pub fn on_outcome(
        &mut self,
        tx_id: TxId,
        local_keys: &OrdSet<Key>,
        outcome: Result<Option<TxResultRecord>>,
        grants: &mut Vec<(TxId, LockGrant)>,
    ) -> (r: Result<()>)
        requires
            old(self).wf(),
        ensures
            final(self).wf(),
            ({
                let v = old(self)@;
                let keys = crate::collections::sorted::<Key>(local_keys@);
                let released = forall|k: Path| #[trigger]
                    local_keys@.contains(k) ==> lock::holds(v.queues, tx_id, k);
                let passed_on = CalvinView {
                    queues: lock::moved_up(v.queues, local_keys@),
                    pending: v.pending.remove(tx_id),
                    ..v
                };
                match r {
                    Ok(_) => {
                        &&& released
                        &&& lock::grant_views(final(grants)@) == lock::grant_views(old(grants)@)
                            + lock::next_grants(v.queues, keys)
                        &&& match outcome {
                            Ok(Some(record)) => final(self)@ == (CalvinView {
                                results: v.results.push(record),
                                ..passed_on
                            }),
                            Ok(None) => final(self)@ == passed_on,
                            Err(_) => false,
                        }
                    },
                    Err(error) => {
                        ||| {
                            &&& released
                            &&& outcome == Err::<Option<TxResultRecord>, Error>(error)
                            &&& final(self)@ == passed_on
                            &&& lock::grant_views(final(grants)@) == lock::grant_views(
                                old(grants)@,
                            ) + lock::next_grants(v.queues, keys)
                        }
                        ||| {
                            &&& !released
                            &&& final(self)@ == (CalvinView {
                                queues: final(self)@.queues,
                                ..v
                            })
                            &&& lock::release_error(
                                v.queues,
                                tx_id,
                                keys,
                                final(self)@.queues,
                                lock::grant_views(old(grants)@),
                                lock::grant_views(final(grants)@),
                                error,
                            )
                        }
                    },
                }
            }),
    {
        match self.locks.release_and_grant_next(tx_id, local_keys, grants) {
            Ok(_) => {},
            Err(error) => return Err(error),
        }
        let _ = self.pending.remove(&tx_id);
        match outcome {
            Ok(Some(record)) => {
                self.results.push(record);
                Ok(())
            },
            Ok(None) => Ok(()),
            Err(error) => Err(error),
        }
    }

    /// Whether every worker has reported.
    pub fn is_done(&self) -> (r: bool)
        ensures
            r == (self@.pending == Set::<TxId>::empty()),
    {
        self.pending.is_empty()
    }

    /// What this shard reports of the batch.
    pub fn finish(self) -> (r: BatchExecutionSummary)
        ensures
            r.batch_id == self@.batch_id,
            r.shard_id == self@.shard_id,
            batch::sorted_from(self@.results, r.tx_results@),
            r.tx_results@.len() == self@.results.len(),
    {
        BatchExecutionSummary {
            batch_id: self.batch_id,
            shard_id: self.shard_id,
            tx_results: sort_records(&self.results),
        }
    }
}

} // verus!
