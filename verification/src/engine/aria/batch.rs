//! A batch on a snapshot, from its first transaction to the report of this shard.

use crate::collections;
use crate::collections::{OrdMap, OrdSet};
use crate::engine::aria;
use crate::engine::aria::aria_result_shard;
use crate::engine::aria::registry::AriaBatchRegistry;
use crate::engine::aria::state;
use crate::engine::aria::state::StagedView;
use crate::engine::batch;
use crate::engine::batch::{sort_records, validate_batch_order, BatchExecutionSummary};
use crate::engine::reorder;
use crate::engine::reorder::{
    fallback_batch_from_failed_indices_with_derived_sets, record_batch_reorder,
};
use crate::error::{Error, Result};
use crate::indices::to_indices;
use crate::model::{
    Batch, BatchId, BatchView, SccReorderRecord, ShardId, TxResultRecord,
};
use crate::router::ShardLayout;
use crate::state::State;
use crate::storage::RedbInMemoryInodeStore;
use vstd::prelude::*;

verus! {

/// A batch while it runs on this shard.
pub struct AriaBatch {
    batch: Batch,
    shard_id: ShardId,
    layout: ShardLayout,
    pending: OrdSet<usize>,
}

#[verifier::ext_equal]
pub struct AriaRunView {
    pub batch: BatchView,
    pub shard_id: ShardId,
    pub shard_count: u64,
    /// The transactions that this shard has still to run.
    pub pending: Set<usize>,
}

impl View for AriaBatch {
    type V = AriaRunView;

    closed spec fn view(&self) -> AriaRunView {
        AriaRunView {
            batch: self.batch@,
            shard_id: self.shard_id,
            shard_count: self.layout.shard_count,
            pending: self.pending@,
        }
    }
}

/// The transactions of `batch` that shard `shard_id` runs and answers for.
pub open spec fn own_indices(batch: BatchView, shard_id: ShardId, shard_count: u64) -> Set<usize> {
    Set::new(
        |i: usize|
            i < batch.txs.len() && aria::result_shard(batch.txs[i as int].tx_id, shard_count)
                == shard_id,
    )
}

/// What is left of a batch whose outcomes were installed.
pub struct AriaSettled {
    pub failed_indices: OrdSet<usize>,
    pub results: Vec<TxResultRecord>,
    /// The transactions to run again, where some failed.
    pub again: Option<Batch>,
}

/// The installation of a batch stopped with `error`.
pub open spec fn install_error(
    staged: Map<usize, StagedView>,
    failed: Set<usize>,
    shard_id: ShardId,
    before: State,
    after: State,
    error: Error,
) -> bool {
    exists|results: Seq<TxResultRecord>| #[trigger]
        state::installation(
            staged,
            failed,
            shard_id,
            before,
            after,
            Seq::empty(),
            results,
            Err(error),
        )
}

proof fn lemma_install_error(
    staged: Map<usize, StagedView>,
    failed: Set<usize>,
    shard_id: ShardId,
    before: State,
    after: State,
    results: Seq<TxResultRecord>,
    error: Error,
)
    requires
        state::installation(
            staged,
            failed,
            shard_id,
            before,
            after,
            Seq::empty(),
            results,
            Err(error),
        ),
    ensures
        install_error(staged, failed, shard_id, before, after, error),
{
}

impl AriaBatch {
    /// There is a shard at all.
    pub closed spec fn wf(&self) -> bool {
        self.layout.wf()
    }

    /// Begins a batch whose order is sound.
    pub fn begin(batch: Batch, layout: ShardLayout, shard_id: ShardId) -> (r: Result<Self>)
        requires
            layout.wf(),
        ensures
            match r {
                Ok(run) => {
                    &&& batch::in_order(batch@.txs, batch@.txs.len() as int)
                    &&& run.wf()
                    &&& run@ == (AriaRunView {
                        batch: batch@,
                        shard_id,
                        shard_count: layout.shard_count,
                        pending: own_indices(batch@, shard_id, layout.shard_count),
                    })
                },
                Err(error) => {
                    &&& !batch::in_order(batch@.txs, batch@.txs.len() as int)
                    &&& batch::order_error(batch@, error)
                },
            },
    {
        match validate_batch_order(&batch) {
            Ok(_) => {},
            Err(error) => return Err(error),
        }
        let ghost own = own_indices(batch@, shard_id, layout.shard_count);
        let mut pending: OrdSet<usize> = OrdSet::new();
        let mut i: usize = 0;
        while i < batch.txs.len()
            invariant
                i <= batch.txs.len(),
                layout.wf(),
                own == own_indices(batch@, shard_id, layout.shard_count),
                forall|j: usize| #[trigger] pending@.contains(j) <==> j < i && own.contains(j),
            decreases batch.txs.len() - i,
        {
            assert(batch@.txs[i as int] == batch.txs@[i as int]@);
            if aria_result_shard(batch.txs[i].tx_id, layout.shard_count) == shard_id {
                let _ = pending.insert(i);
            }
            i += 1;
        }
        assert(pending@ =~= own);
        Ok(AriaBatch { batch, shard_id, layout, pending })
    }

    /// Whether this shard runs a transaction and answers for it.
    pub fn responsible(&self, tx_index: usize) -> (r: bool)
        requires
            self.wf(),
            tx_index < self@.batch.txs.len(),
        ensures
            r == own_indices(self@.batch, self@.shard_id, self@.shard_count).contains(tx_index),
    {
        assert(self.batch@.txs[tx_index as int] == self.batch.txs@[tx_index as int]@);
        aria_result_shard(self.batch.txs[tx_index].tx_id, self.layout.shard_count) == self.shard_id
    }

    /// The transactions that this shard has still to run, in batch order.
    pub fn to_run(&self) -> (r: Vec<usize>)
        ensures
            r@ == collections::sorted::<usize>(self@.pending),
    {
        to_indices(&self.pending)
    }

    /// Takes the end of a transaction that this shard ran.
    pub fn on_run(&mut self, tx_index: usize, outcome: Result<()>) -> (r: Result<()>)
        requires
            old(self).wf(),
        ensures
            final(self).wf(),
            r == outcome,
            final(self)@ == (match outcome {
                Ok(_) => AriaRunView { pending: old(self)@.pending.remove(tx_index), ..old(self)@ },
                Err(_) => old(self)@,
            }),
    {
        match outcome {
            Ok(done) => {
                let _ = self.pending.remove(&tx_index);
                Ok(done)
            },
            Err(error) => Err(error),
        }
    }

    /// Whether this shard has run all its transactions.
    pub fn has_run(&self) -> (r: bool)
        ensures
            r == (self@.pending == Set::<usize>::empty()),
    {
        self.pending.is_empty()
    }

    /// The transactions that cannot stand by what this shard knows, once every shard has
    /// run all its transactions.
    pub fn failures(&self, registry: &AriaBatchRegistry) -> (r: Option<OrdSet<usize>>)
        ensures
            ({
                let known = registry.state(self@.batch.batch_id);
                match r {
                    Some(failed) => {
                        &&& state::all_reported(known.done, self@.shard_count)
                        &&& failed@ == known.local_failures()
                    },
                    None => !state::all_reported(known.done, self@.shard_count),
                }
            }),
    {
        if registry.execution_done(self.batch.batch_id, self.layout.shard_count) {
            Some(registry.local_failed_indices(self.batch.batch_id))
        } else {
            None
        }
    }

    /// Settles the run once every shard has reported its failures: notes the order of the
    /// batch, installs what stands, and gives what is to run again.
    pub fn settle(
        &self,
        registry: &AriaBatchRegistry,
        reorders: &mut OrdMap<BatchId, SccReorderRecord>,
        store: &mut RedbInMemoryInodeStore,
    ) -> (r: Result<Option<AriaSettled>>)
        requires
            registry.wf(),
            old(store).wf(),
        ensures
            final(store).wf(),
            ({
                let batch_id = self@.batch.batch_id;
                let len = self@.batch.txs.len();
                let known = registry.state(batch_id);
                let reported = state::all_reported(known.failures.dom(), self@.shard_count);
                let failed = known.reported_failures();
                let noted = reorder::recording(
                    old(reorders)@,
                    final(reorders)@,
                    batch_id,
                    len,
                    failed,
                    Ok(()),
                );
                match r {
                    Ok(None) => {
                        !reported && final(store)@ == old(store)@ && final(reorders)@ == old(
                            reorders,
                        )@
                    },
                    Ok(Some(settled)) => {
                        &&& reported && noted
                        &&& state::installation(
                            known.staged,
                            failed,
                            self@.shard_id,
                            old(store)@,
                            final(store)@,
                            Seq::empty(),
                            settled.results@,
                            Ok(()),
                        )
                        &&& settled.failed_indices@ == failed
                        &&& match settled.again {
                            None => failed == Set::<usize>::empty(),
                            Some(again) => {
                                &&& failed != Set::<usize>::empty()
                                &&& again@ == reorder::derived_fallback_batch(self@.batch, failed)
                            },
                        }
                    },
                    Err(error) => {
                        &&& reported
                        &&& {
                            ||| {
                                &&& reorder::recording(
                                    old(reorders)@,
                                    final(reorders)@,
                                    batch_id,
                                    len,
                                    failed,
                                    Err(error),
                                )
                                &&& final(store)@ == old(store)@
                            }
                            ||| {
                                &&& noted
                                &&& install_error(
                                    known.staged,
                                    failed,
                                    self@.shard_id,
                                    old(store)@,
                                    final(store)@,
                                    error,
                                )
                            }
                        }
                    },
                }
            }),
    {
        let batch_id = self.batch.batch_id;
        let failed_indices = match registry.failure_reports(batch_id, self.layout.shard_count) {
            Some(failed_indices) => failed_indices,
            None => return Ok(None),
        };
        match record_batch_reorder(reorders, batch_id, self.batch.txs.len(), &failed_indices) {
            Ok(_) => {},
            Err(error) => return Err(error),
        }
        let ghost before = store@;
        let mut results: Vec<TxResultRecord> = Vec::new();
        match registry.install_aria_successes(
            store,
            batch_id,
            self.shard_id,
            &failed_indices,
            &mut results,
        ) {
            Ok(_) => {},
            Err(error) => {
                proof {
                    lemma_install_error(
                        registry.state(batch_id).staged,
                        failed_indices@,
                        self.shard_id,
                        before,
                        store@,
                        results@,
                        error,
                    );
                }
                return Err(error);
            },
        }
        let again = if failed_indices.is_empty() {
            None
        } else {
            Some(
                fallback_batch_from_failed_indices_with_derived_sets(
                    &self.batch,
                    &failed_indices,
                )?,
            )
        };
        Ok(Some(AriaSettled { failed_indices, results, again }))
    }

    /// What this shard reports of the batch, once the failures were run again.
    pub fn finish(&self, results: Vec<TxResultRecord>, again: Vec<TxResultRecord>) -> (r:
        BatchExecutionSummary)
        ensures
            r.batch_id == self@.batch.batch_id,
            r.shard_id == self@.shard_id,
            batch::sorted_from(results@ + again@, r.tx_results@),
            r.tx_results@.len() == results@.len() + again@.len(),
    {
        let mut all = results;
        let mut again = again;
        all.append(&mut again);
        BatchExecutionSummary {
            batch_id: self.batch.batch_id,
            shard_id: self.shard_id,
            tx_results: sort_records(&all),
        }
    }
}

} // verus!
