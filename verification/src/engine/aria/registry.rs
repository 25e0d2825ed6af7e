//! What a shard knows of all batches on a snapshot.

use crate::collections;
use crate::collections::{OrdMap, OrdSet};
use crate::engine::aria::state;
use crate::engine::aria::state::{AriaBatchState, AriaView};
use crate::engine::aria::AriaStageOutcome;
use crate::error::{BatchFault, Error, Result};
use crate::model::{BatchId, Key, ReadValue, ShardId, TxResultRecord};
use crate::router;
use crate::router::ShardLayout;
use crate::storage::RedbInMemoryInodeStore;
use vstd::prelude::*;

verus! {

/// What this shard knows of each batch. Of a batch that it has not heard of, it knows
/// nothing.
pub struct AriaBatchRegistry {
    batches: OrdMap<BatchId, AriaBatchState>,
}

impl AriaBatchRegistry {
    /// What is known of a batch.
    pub closed spec fn state(&self, batch_id: BatchId) -> AriaView {
        if self.batches@.contains_key(batch_id) {
            self.batches@[batch_id]@
        } else {
            AriaView::fresh()
        }
    }

    pub closed spec fn wf(&self) -> bool {
        forall|id: BatchId| #[trigger]
            self.batches@.contains_key(id) ==> self.batches@[id].wf()
    }

    /// What is known of every other batch is the same.
    pub open spec fn same_others(&self, other: &Self, batch_id: BatchId) -> bool {
        forall|id: BatchId| id != batch_id ==> #[trigger] self.state(id) == other.state(id)
    }

    pub fn new() -> (r: Self)
        ensures
            r.wf(),
            forall|id: BatchId| #[trigger] r.state(id) == AriaView::fresh(),
    {
        AriaBatchRegistry { batches: OrdMap::new() }
    }

    /// Takes the state of a batch out.
    fn take_entry(&mut self, batch_id: BatchId) -> (r: AriaBatchState)
        requires
            old(self).wf(),
        ensures
            final(self).wf(),
            final(self).batches@ == old(self).batches@.remove(batch_id),
            r.wf(),
            r@ == old(self).state(batch_id),
    {
        match self.batches.remove(&batch_id) {
            Some(entry) => entry,
            None => AriaBatchState::new(),
        }
    }

    /// Puts the state of a batch back.
    fn put_entry(&mut self, batch_id: BatchId, entry: AriaBatchState)
        requires
            old(self).wf(),
            entry.wf(),
        ensures
            final(self).wf(),
            final(self).batches@ == old(self).batches@.insert(batch_id, entry),
    {
        let _ = self.batches.insert(batch_id, entry);
    }

    /// Reads a key of this shard for a transaction, and notes that it was read.
    pub fn read_snapshot(
        &mut self,
        store: &RedbInMemoryInodeStore,
        layout: &ShardLayout,
        shard_id: ShardId,
        batch_id: BatchId,
        tx_index: usize,
        key: &Key,
    ) -> (r: Result<ReadValue>)
        requires
            old(self).wf(),
            store.wf(),
            layout.wf(),
        ensures
            final(self).wf(),
            final(self).same_others(old(self), batch_id),
            ({
                let owner = router::shard_of(layout.shard_count, key@);
                let before = old(self).state(batch_id);
                match r {
                    Ok(value) => {
                        &&& owner == shard_id
                        &&& value == crate::state::value_in(store@, key@)
                        &&& final(self).state(batch_id) == (AriaView {
                            readers: state::noted(before.readers, key@, tx_index),
                            ..before
                        })
                    },
                    Err(error) => {
                        &&& final(self).state(batch_id) == before
                        &&& state::misread(owner, shard_id, key@, error)
                    },
                }
            }),
    {
        let mut entry = self.take_entry(batch_id);
        let r = entry.read_snapshot(store, layout, shard_id, tx_index, key);
        self.put_entry(batch_id, entry);
        r
    }

    /// Keeps what a transaction is to do here.
    pub fn stage_outcome(
        &mut self,
        layout: &ShardLayout,
        shard_id: ShardId,
        outcome: AriaStageOutcome,
    ) -> (r: Result<()>)
        requires
            old(self).wf(),
            layout.wf(),
        ensures
            final(self).wf(),
            final(self).same_others(old(self), outcome@.batch_id),
            state::staging(
                layout.shard_count,
                shard_id,
                outcome@,
                old(self).state(outcome@.batch_id),
                final(self).state(outcome@.batch_id),
                r,
            ),
    {
        let batch_id = outcome.batch_id;
        let mut entry = self.take_entry(batch_id);
        let r = entry.stage_outcome(layout, shard_id, outcome);
        self.put_entry(batch_id, entry);
        r
    }

    /// Notes that a shard has run all its transactions.
    pub fn record_execution_done(
        &mut self,
        batch_id: BatchId,
        from_shard: ShardId,
        shard_count: u64,
    ) -> (r: Result<()>)
        requires
            old(self).wf(),
        ensures
            final(self).wf(),
            final(self).same_others(old(self), batch_id),
            ({
                let before = old(self).state(batch_id);
                let after = AriaView { done: before.done.insert(from_shard), ..before };
                match r {
                    Ok(_) => {
                        &&& from_shard < shard_count
                        &&& !before.done.contains(from_shard)
                        &&& final(self).state(batch_id) == after
                    },
                    Err(error) => {
                        ||| {
                            &&& state::report_error(batch_id, from_shard, shard_count, error)
                            &&& final(self).state(batch_id) == before
                        }
                        ||| {
                            &&& from_shard < shard_count
                            &&& before.done.contains(from_shard)
                            &&& error == Error::InvalidBatch(
                                BatchFault::AriaDoneTwice { batch_id, from_shard },
                            )
                            &&& final(self).state(batch_id) == after
                        }
                    },
                }
            }),
    {
        let mut entry = self.take_entry(batch_id);
        let r = entry.record_execution_done(batch_id, from_shard, shard_count);
        self.put_entry(batch_id, entry);
        r
    }

    /// Notes which transactions failed by what a shard knows.
    pub fn record_local_failures(
        &mut self,
        batch_id: BatchId,
        from_shard: ShardId,
        failed_indices: OrdSet<usize>,
        shard_count: u64,
    ) -> (r: Result<()>)
        requires
            old(self).wf(),
        ensures
            final(self).wf(),
            final(self).same_others(old(self), batch_id),
            ({
                let before = old(self).state(batch_id);
                let after = AriaView {
                    failures: before.failures.insert(from_shard, failed_indices@),
                    ..before
                };
                match r {
                    Ok(_) => {
                        &&& from_shard < shard_count
                        &&& !before.failures.contains_key(from_shard)
                        &&& final(self).state(batch_id) == after
                    },
                    Err(error) => {
                        ||| {
                            &&& state::report_error(batch_id, from_shard, shard_count, error)
                            &&& final(self).state(batch_id) == before
                        }
                        ||| {
                            &&& from_shard < shard_count
                            &&& before.failures.contains_key(from_shard)
                            &&& error == Error::InvalidBatch(
                                BatchFault::AriaFailuresTwice { batch_id, from_shard },
                            )
                            &&& final(self).state(batch_id) == after
                        }
                    },
                }
            }),
    {
        let mut entry = self.take_entry(batch_id);
        let r = entry.record_local_failures(batch_id, from_shard, failed_indices, shard_count);
        self.put_entry(batch_id, entry);
        r
    }

    /// Whether every shard has run all its transactions of a batch.
    pub fn execution_done(&self, batch_id: BatchId, shard_count: u64) -> (r: bool)
        ensures
            r == state::all_reported(self.state(batch_id).done, shard_count),
    {
        match self.batches.get(&batch_id) {
            Some(entry) => entry.execution_done(shard_count),
            None => AriaBatchState::new().execution_done(shard_count),
        }
    }

    /// All failures of a batch that were reported, once every shard has reported.
    pub fn failure_reports(&self, batch_id: BatchId, shard_count: u64) -> (r: Option<
        OrdSet<usize>,
    >)
        ensures
            match r {
                Some(failed) => {
                    &&& state::all_reported(self.state(batch_id).failures.dom(), shard_count)
                    &&& failed@ == self.state(batch_id).reported_failures()
                },
                None => !state::all_reported(self.state(batch_id).failures.dom(), shard_count),
            },
    {
        match self.batches.get(&batch_id) {
            Some(entry) => entry.failure_reports(shard_count),
            None => AriaBatchState::new().failure_reports(shard_count),
        }
    }

    /// The transactions of a batch that lose a key of this shard to an earlier writer.
    pub fn local_failed_indices(&self, batch_id: BatchId) -> (r: OrdSet<usize>)
        ensures
            r@ == self.state(batch_id).local_failures(),
    {
        match self.batches.get(&batch_id) {
            Some(entry) => entry.local_failed_indices(),
            None => AriaBatchState::new().local_failed_indices(),
        }
    }

    /// Makes the writes of all staged outcomes of a batch but those of `failed_indices`,
    /// in batch order, and adds the results for which this shard answers to `records`.
    pub fn install_aria_successes(
        &self,
        store: &mut RedbInMemoryInodeStore,
        batch_id: BatchId,
        shard_id: ShardId,
        failed_indices: &OrdSet<usize>,
        records: &mut Vec<TxResultRecord>,
    ) -> (r: Result<()>)
        requires
            self.wf(),
            old(store).wf(),
        ensures
            final(store).wf(),
            state::installation(
                self.state(batch_id).staged,
                failed_indices@,
                shard_id,
                old(store)@,
                final(store)@,
                old(records)@,
                final(records)@,
                r,
            ),
    {
        match self.batches.get(&batch_id) {
            Some(entry) => entry.install_aria_successes(store, shard_id, failed_indices, records),
            None => AriaBatchState::new().install_aria_successes(
                store,
                shard_id,
                failed_indices,
                records,
            ),
        }
    }

    /// Forgets a batch.
    pub fn cleanup_batch(&mut self, batch_id: BatchId)
        requires
            old(self).wf(),
        ensures
            final(self).wf(),
            final(self).same_others(old(self), batch_id),
            final(self).state(batch_id) == AriaView::fresh(),
    {
        let _ = self.batches.remove(&batch_id);
    }
}

/// The failed transactions as they are sent to other shards.
pub fn failures_to_wire(failed_indices: &OrdSet<usize>) -> (r: Vec<u32>)
    ensures
        r@ == collections::sorted::<usize>(failed_indices@).map_values(|i: usize| i as u32),
{
    let n = failed_indices.len();
    let ghost order = failed_indices.ordered();
    let mut r: Vec<u32> = Vec::new();
    let mut k: usize = 0;
    while k < n
        invariant
            k <= n,
            n == order.len(),
            order == failed_indices.ordered(),
            r.len() == k,
            forall|j: int| 0 <= j < k ==> #[trigger] r@[j] == order[j] as u32,
        decreases n - k,
    {
        r.push(*failed_indices.at(k) as u32);
        k += 1;
    }
    assert(r@ =~= order.map_values(|i: usize| i as u32));
    r
}

/// The failed transactions that another shard sent.
pub fn failures_from_wire(failed_indices: &Vec<u32>) -> (r: OrdSet<usize>)
    ensures
        r@ == failed_indices@.map_values(|i: u32| i as usize).to_set(),
{
    let ghost wide = failed_indices@.map_values(|i: u32| i as usize);
    let mut r: OrdSet<usize> = OrdSet::new();
    let mut k: usize = 0;
    assert(r@ =~= wide.take(0).to_set());
    while k < failed_indices.len()
        invariant
            k <= failed_indices.len(),
            wide == failed_indices@.map_values(|i: u32| i as usize),
            r@ == wide.take(k as int).to_set(),
        decreases failed_indices.len() - k,
    {
        let _ = r.insert(failed_indices[k] as usize);
        proof {
            collections::lemma_take_to_set(wide, k as int);
        }
        k += 1;
    }
    assert(wide.take(k as int) =~= wide);
    r
}

/// What is sent of the failed transactions of a batch whose positions fit into a message
/// is read back unchanged.
pub proof fn lemma_failures_round_trip(failed: Set<usize>, wire: Seq<u32>)
    requires
        failed.finite(),
        forall|i: usize| #[trigger] failed.contains(i) ==> i <= u32::MAX,
        wire == collections::sorted::<usize>(failed).map_values(|i: usize| i as u32),
    ensures
        wire.map_values(|i: u32| i as usize).to_set() == failed,
{
    let order = collections::sorted::<usize>(failed);
    collections::lemma_sorted_of_finite::<usize>(failed);
    let back = wire.map_values(|i: u32| i as usize);
    assert forall|k: int| 0 <= k < order.len() implies back[k] == order[k] by {
        assert(order.to_set().contains(order[k]));
        assert(failed.contains(order[k]));
    }
    assert(back =~= order);
}

} // verus!
