//! A speculative batch on this shard.

use crate::collections;
use crate::collections::{OrdMap, OrdSet};
use crate::engine::batch;
use crate::engine::batch::{sort_records, validate_batch_order, BatchExecutionSummary};
use crate::engine::calvin;
use crate::engine::calvin::result_shard_of;
use crate::engine::reorder;
use crate::engine::reorder::{
    failed_indices_from_snapshot, fallback_batch_from_failed_indices, install_scc_successes,
    record_batch_reorder,
};
use crate::engine::scc_worker::SccWorker;
use crate::error::Result;
use crate::executor;
use crate::executor::validate_sets;
use crate::model::{
    Batch, BatchId, BatchView, Key, OrderedTxView, SccReorderRecord, ShardId, TxResultRecord,
};
use crate::path::Path;
use crate::router;
use crate::router::ShardLayout;
use crate::scc::commit;
use crate::scc::commit::{CommitSequence, CommitSlotState, SlotView};
use crate::scc::dag::{DagView, SccDagRuntime, SccReady};
use crate::scc::plan;
use crate::scc::plan::{build_scc_batch_plan, SccBatchPlan};
use crate::storage::RedbInMemoryInodeStore;
use vstd::prelude::*;

verus! {

/// A speculative batch while it runs on this shard.
pub struct SccBatch {
    batch: Batch,
    shard_id: ShardId,
    layout: ShardLayout,
    plan: SccBatchPlan,
    dag: SccDagRuntime,
    commits: CommitSequence,
    reads_by_tx: Vec<OrdSet<Key>>,
    writes_by_tx: Vec<OrdSet<Key>>,
    records: OrdMap<usize, TxResultRecord>,
}

#[verifier::ext_equal]
pub struct SccBatchView {
    pub batch: BatchView,
    pub shard_id: ShardId,
    pub shard_count: u64,
    pub effect: DagView,
    pub condition: DagView,
    pub slots: Seq<SlotView>,
    pub records: Map<usize, TxResultRecord>,
}

impl SccBatchView {
    /// The keys that a transaction reads on this shard.
    pub open spec fn local_reads(self, i: int) -> Set<Path> {
        router::local_part(self.shard_count, self.batch.txs[i].read_set, self.shard_id)
    }

    /// The keys that a transaction writes on this shard.
    pub open spec fn local_writes(self, i: int) -> Set<Path> {
        router::local_part(self.shard_count, self.batch.txs[i].write_set, self.shard_id)
    }

    /// A transaction is done in both graphs once its slot is terminal, and not before.
    pub open spec fn terminal_first(self) -> bool {
        &&& self.slots.len() == self.batch.txs.len()
        &&& self.effect.finished.len() == self.batch.txs.len()
        &&& self.condition.finished == self.effect.finished
        &&& forall|i: int|
            0 <= i < self.slots.len() ==> (#[trigger] self.effect.finished[i]) == (self.slots[i]
                != SlotView::Pending)
    }

    /// A transaction has no keys on this shard.
    pub open spec fn is_idle(self, i: int) -> bool {
        self.local_reads(i) == Set::<Path>::empty() && self.local_writes(i) == Set::<Path>::empty()
    }
}

impl View for SccBatch {
    type V = SccBatchView;

    closed spec fn view(&self) -> SccBatchView {
        SccBatchView {
            batch: self.batch@,
            shard_id: self.shard_id,
            shard_count: self.layout.shard_count,
            effect: self.dag.effect@,
            condition: self.dag.condition@,
            slots: self.commits@,
            records: self.records@,
        }
    }
}

/// The edges that a graph over `txs` starts with.
pub open spec fn starts_as(v: DagView, txs: Seq<OrderedTxView>) -> bool {
    &&& v.successors.len() == txs.len()
    &&& forall|i: int, j: usize|
        0 <= i < txs.len() ==> (#[trigger] v.successors[i].contains(j) <==> plan::depends(
            txs,
            i,
            j as int,
        ))
    &&& v.notified == Seq::new(txs.len(), |j: int| false)
    &&& v.finished == Seq::new(txs.len(), |j: int| false)
}

/// The results of the transactions that stand, in batch order.
pub open spec fn standing(
    records: Map<usize, TxResultRecord>,
    indices: Seq<usize>,
    failed: Set<usize>,
) -> Seq<TxResultRecord>
    decreases indices.len(),
{
    if indices.len() == 0 {
        Seq::empty()
    } else {
        let earlier = standing(records, indices.drop_last(), failed);
        if failed.contains(indices.last()) {
            earlier
        } else {
            earlier.push(records[indices.last()])
        }
    }
}

/// What a speculative run came to.
pub struct SccConclusion {
    pub snapshot: Vec<CommitSlotState>,
    pub failed_indices: OrdSet<usize>,
    pub results: Vec<TxResultRecord>,
}

/// What is left of a speculative run that was installed.
pub struct SccSettled {
    pub failed_indices: OrdSet<usize>,
    pub results: Vec<TxResultRecord>,
    /// The transactions to run again, where some failed.
    pub again: Option<Batch>,
}

impl SccBatch {
    pub closed spec fn wf(&self) -> bool {
        &&& self.layout.wf()
        &&& self.dag.wf()
        &&& self@.terminal_first()
        &&& self.reads_by_tx.len() == self.batch@.txs.len()
        &&& self.writes_by_tx.len() == self.batch@.txs.len()
        &&& plan::plans(self.plan, self.batch@.txs)
        &&& forall|i: int|
            0 <= i < self.batch@.txs.len() ==> (#[trigger] self.reads_by_tx@[i])@
                == self@.local_reads(i)
        &&& forall|i: int|
            0 <= i < self.batch@.txs.len() ==> (#[trigger] self.writes_by_tx@[i])@
                == self@.local_writes(i)
    }

    /// The plan of the batch.
    pub closed spec fn spec_plan(&self) -> SccBatchPlan {
        self.plan
    }

    /// Begins a batch whose order is sound: plans it, with every slot pending and nothing
    /// told yet.
    pub fn begin(batch: Batch, layout: ShardLayout, shard_id: ShardId) -> (r: Result<Self>)
        requires
            layout.wf(),
        ensures
            match r {
                Ok(run) => {
                    &&& batch::in_order(batch@.txs, batch@.txs.len() as int)
                    &&& run.wf()
                    &&& run@.batch == batch@
                    &&& run@.shard_id == shard_id
                    &&& run@.shard_count == layout.shard_count
                    &&& starts_as(run@.effect, batch@.txs)
                    &&& starts_as(run@.condition, batch@.txs)
                    &&& run@.slots == Seq::new(batch@.txs.len(), |i: int| SlotView::Pending)
                    &&& run@.records == Map::<usize, TxResultRecord>::empty()
                },
                Err(error) => {
                    &&& !batch::in_order(batch@.txs, batch@.txs.len() as int)
                    &&& batch::order_error(batch@, error)
                },
            },
    {
        match validate_batch_order(&batch) {
            Ok(_) => {},
            Err(error) => return Err(error),
        }
        let plan = build_scc_batch_plan(&batch)?;
        let dag = SccDagRuntime::new(&plan);
        let len = batch.txs.len();
        let commits = CommitSequence::new(len);
        let ghost txs = batch@.txs;
        let mut reads_by_tx: Vec<OrdSet<Key>> = Vec::new();
        let mut writes_by_tx: Vec<OrdSet<Key>> = Vec::new();
        let mut i: usize = 0;
        while i < len
            invariant
                i <= len,
                len == batch.txs.len(),
                txs == batch@.txs,
                layout.wf(),
                reads_by_tx.len() == i,
                writes_by_tx.len() == i,
                forall|j: int|
                    0 <= j < i ==> (#[trigger] reads_by_tx@[j])@ == router::local_part(
                        layout.shard_count,
                        txs[j].read_set,
                        shard_id,
                    ),
                forall|j: int|
                    0 <= j < i ==> (#[trigger] writes_by_tx@[j])@ == router::local_part(
                        layout.shard_count,
                        txs[j].write_set,
                        shard_id,
                    ),
            decreases len - i,
        {
            assert(txs[i as int] == batch.txs@[i as int]@);
            reads_by_tx.push(layout.local_read_keys(&batch.txs[i], shard_id));
            writes_by_tx.push(layout.local_write_keys(&batch.txs[i], shard_id));
            i += 1;
        }
        proof {
            lemma_starts(plan.effect, dag.effect@.successors, txs);
            lemma_starts(plan.condition, dag.condition@.successors, txs);
        }
        Ok(
            SccBatch {
                batch,
                shard_id,
                layout,
                plan,
                dag,
                commits,
                reads_by_tx,
                writes_by_tx,
                records: OrdMap::new(),
            },
        )
    }

    /// Checks the key sets of a transaction; answers whether this shard answers for it.
    pub fn responsible(&self, tx_index: usize) -> (r: Result<bool>)
        requires
            self.wf(),
            tx_index < self@.batch.txs.len(),
        ensures
            ({
                let tx = self@.batch.txs[tx_index as int];
                match r {
                    Ok(responsible) => {
                        &&& calvin::sets_match(tx)
                        &&& responsible == router::least_shard(
                            calvin::active_shards(self@.shard_count, tx),
                            self@.shard_id,
                        )
                    },
                    Err(error) => executor::sets_error(tx, error) && !calvin::sets_match(tx),
                }
            }),
    {
        let tx = &self.batch.txs[tx_index];
        assert(self.batch@.txs[tx_index as int] == tx@);
        match validate_sets(tx) {
            Ok(_) => {},
            Err(error) => return Err(error),
        }
        let result_shard = result_shard_of(&self.layout, tx);
        proof {
            let active = calvin::active_shards(self.layout.shard_count, tx@);
            if router::least_shard(active, self.shard_id) {
                calvin::lemma_least_shard_unique(active, self.shard_id, result_shard);
            }
        }
        Ok(result_shard == self.shard_id)
    }

    /// All keys that the batch reads on this shard.
    pub fn base_keys(&self) -> (r: OrdSet<Key>)
        requires
            self.wf(),
        ensures
            forall|k: Path| #[trigger]
                r@.contains(k) <==> exists|i: int|
                    0 <= i < self@.batch.txs.len() && (#[trigger] self@.local_reads(i)).contains(k),
    {
        let mut keys: OrdSet<Key> = OrdSet::new();
        let mut i: usize = 0;
        while i < self.reads_by_tx.len()
            invariant
                i <= self.reads_by_tx.len(),
                self.wf(),
                forall|k: Path| #[trigger]
                    keys@.contains(k) <==> exists|j: int|
                        0 <= j < i && (#[trigger] self@.local_reads(j)).contains(k),
            decreases self.reads_by_tx.len() - i,
        {
            let ghost before = keys@;
            assert(self.reads_by_tx@[i as int]@ == self@.local_reads(i as int));
            keys.extend(&self.reads_by_tx[i]);
            proof {
                assert forall|k: Path| #[trigger] keys@.contains(k) <==> exists|j: int|
                    0 <= j < i + 1 && (#[trigger] self@.local_reads(j)).contains(k) by {
                    if before.contains(k) {
                        let j = choose|j: int|
                            0 <= j < i && (#[trigger] self@.local_reads(j)).contains(k);
                        assert(self@.local_reads(j).contains(k));
                    }
                    if self@.local_reads(i as int).contains(k) {
                        assert(keys@.contains(k));
                    }
                }
            }
            i += 1;
        }
        keys
    }

    /// The keys that each transaction writes on this shard.
    pub fn writes_by_tx(&self) -> (r: &Vec<OrdSet<Key>>)
        ensures
            self.wf() ==> {
                &&& r@.len() == self@.batch.txs.len()
                &&& forall|i: int|
                    0 <= i < r@.len() ==> (#[trigger] r@[i])@ == self@.local_writes(i)
            },
    {
        &self.writes_by_tx
    }

    /// The plan of the batch.
    pub fn plan(&self) -> (r: &SccBatchPlan)
        ensures
            *r == self.spec_plan(),
            self.wf() ==> plan::plans(*r, self@.batch.txs),
    {
        &self.plan
    }

    /// The slots of the batch.
    pub fn commits(&self) -> (r: &CommitSequence)
        ensures
            r@ == self@.slots,
    {
        &self.commits
    }

    /// The worker for a transaction; nothing where it has no keys on this shard.
    pub fn worker(&self, tx_index: usize) -> (r: Option<SccWorker>)
        requires
            self.wf(),
            tx_index < self@.batch.txs.len(),
            calvin::sets_match(self@.batch.txs[tx_index as int]),
        ensures
            ({
                let i = tx_index as int;
                let tx = self@.batch.txs[i];
                match r {
                    None => self@.is_idle(i),
                    Some(worker) => {
                        &&& !self@.is_idle(i)
                        &&& worker.wf()
                        &&& worker.batch_id == self@.batch.batch_id
                        &&& worker.shard_id == self@.shard_id
                        &&& worker.layout.shard_count == self@.shard_count
                        &&& worker.tx@ == tx
                        &&& plan::plans(self.spec_plan(), self@.batch.txs)
                        &&& worker.tx_plan == self.spec_plan().tx_plans[i]
                        &&& worker.participants@ == router::participants_of(
                            self@.shard_count,
                            tx.read_set,
                            tx.write_set,
                        )
                        &&& router::least_shard(
                            calvin::active_shards(self@.shard_count, tx),
                            worker.result_shard,
                        )
                        &&& worker.local_read_keys@ == self@.local_reads(i)
                        &&& worker.local_write_keys@ == self@.local_writes(i)
                    },
                }
            }),
    {
        let local_read_keys = self.reads_by_tx[tx_index].clone();
        let local_write_keys = self.writes_by_tx[tx_index].clone();
        if local_read_keys.is_empty() && local_write_keys.is_empty() {
            return None;
        }
        let tx = &self.batch.txs[tx_index];
        assert(self.batch@.txs[tx_index as int] == tx@);
        Some(
            SccWorker {
                batch_id: self.batch.batch_id,
                shard_id: self.shard_id,
                layout: self.layout,
                tx: tx.clone(),
                tx_plan: self.plan.tx_plans[tx_index],
                participants: self.layout.participants(tx),
                result_shard: result_shard_of(&self.layout, tx),
                local_read_keys,
                local_write_keys,
            },
        )
    }

    /// Tells all transactions that wait for nothing to go on.
    pub fn start(&mut self) -> (r: Result<SccReady>)
        requires
            old(self).wf(),
        ensures
            final(self).wf(),
            match r {
                Ok(told) => {
                    let v = old(self)@;
                    &&& collections::ascending::<usize>(told.effect@)
                    &&& told.effect@.to_set() == v.effect.fresh(v.effect.vertices())
                    &&& collections::ascending::<usize>(told.condition@)
                    &&& told.condition@.to_set() == v.condition.fresh(v.condition.vertices())
                    &&& final(self)@ == (SccBatchView {
                        effect: v.effect.notify(v.effect.vertices()),
                        condition: v.condition.notify(v.condition.vertices()),
                        ..v
                    })
                },
                Err(_) => false,
            },
    {
        self.dag.start()
    }

    /// `told` are the transactions that may go on once `tx_index` is done, and `after` is
    /// the batch then.
    pub open spec fn finishes(
        before: SccBatchView,
        tx_index: usize,
        told: SccReady,
        after: SccBatchView,
    ) -> bool {
        let i = tx_index as int;
        let effect = before.effect.finish(i);
        let condition = before.condition.finish(i);
        &&& tx_index < before.effect.finished.len()
        &&& !before.effect.finished[i]
        &&& collections::ascending::<usize>(told.effect@)
        &&& told.effect@.to_set() == effect.fresh(before.effect.successors[i])
        &&& collections::ascending::<usize>(told.condition@)
        &&& told.condition@.to_set() == condition.fresh(before.condition.successors[i])
        &&& after == (SccBatchView {
            effect: effect.notify(before.effect.successors[i]),
            condition: condition.notify(before.condition.successors[i]),
            ..before
        })
    }

    /// Where the batch runs, slots are terminal before anyone who waits for them is told.
    pub proof fn lemma_terminal_first(&self)
        requires
            self.wf(),
        ensures
            self@.terminal_first(),
    {
    }

    /// Ends a transaction on this shard: makes its slot terminal, which is done once, then
    /// marks it as done, and notes its result.
    pub fn on_end(
        &mut self,
        tx_index: usize,
        slot: CommitSlotState,
        record: Option<TxResultRecord>,
    ) -> (r: Result<SccReady>)
        requires
            old(self).wf(),
        ensures
            final(self).wf(),
            match r {
                Ok(told) => {
                    let noted = SccBatchView {
                        slots: old(self)@.slots.update(tx_index as int, slot@),
                        records: match record {
                            Some(record) => old(self)@.records.insert(tx_index, record),
                            None => old(self)@.records,
                        },
                        ..old(self)@
                    };
                    &&& slot@ != SlotView::Pending
                    &&& tx_index < old(self)@.slots.len()
                    &&& old(self)@.slots[tx_index as int] == SlotView::Pending
                    &&& SccBatch::finishes(noted, tx_index, told, final(self)@)
                },
                Err(error) => {
                    &&& final(self)@ == old(self)@
                    &&& commit::set_error(old(self)@.slots, tx_index, slot@, error)
                },
            },
    {
        match self.commits.set_terminal_once(tx_index, slot) {
            Ok(_) => {},
            Err(error) => return Err(error),
        }
        assert(!old(self)@.effect.finished[tx_index as int]);
        let told = self.dag.finish_vertex(tx_index)?;
        match record {
            Some(record) => {
                let _ = self.records.insert(tx_index, record);
            },
            None => {},
        }
        Ok(told)
    }

    /// Ends a transaction without keys on this shard: it changes nothing here.
    pub fn finish_idle(&mut self, tx_index: usize) -> (r: Result<SccReady>)
        requires
            old(self).wf(),
        ensures
            final(self).wf(),
            match r {
                Ok(told) => {
                    let noted = SccBatchView {
                        slots: old(self)@.slots.update(tx_index as int, SlotView::NoOp),
                        ..old(self)@
                    };
                    &&& tx_index < old(self)@.slots.len()
                    &&& old(self)@.slots[tx_index as int] == SlotView::Pending
                    &&& SccBatch::finishes(noted, tx_index, told, final(self)@)
                },
                Err(error) => {
                    &&& final(self)@ == old(self)@
                    &&& commit::set_error(old(self)@.slots, tx_index, SlotView::NoOp, error)
                },
            },
    {
        self.on_end(tx_index, CommitSlotState::NoOp, None)
    }

    /// What the run came to: which transactions failed, and the results of the others.
    pub fn conclude(&self) -> (r: SccConclusion)
        ensures
            commit::slot_views(r.snapshot@) == self@.slots,
            r.failed_indices@ == reorder::failed_slots(self@.slots),
            r.results@ == standing(
                self@.records,
                collections::sorted::<usize>(self@.records.dom()),
                reorder::failed_slots(self@.slots),
            ),
    {
        let snapshot = self.commits.terminal_snapshot();
        let failed_indices = failed_indices_from_snapshot(&snapshot);
        let n = self.records.len();
        let ghost keys = self.records.ordered();
        let mut results: Vec<TxResultRecord> = Vec::new();
        let mut i: usize = 0;
        while i < n
            invariant
                i <= n,
                n == keys.len(),
                keys == self.records.ordered(),
                failed_indices@ == reorder::failed_slots(self@.slots),
                results@ == standing(
                    self@.records,
                    keys.take(i as int),
                    reorder::failed_slots(self@.slots),
                ),
            decreases n - i,
        {
            proof {
                assert(keys.take(i + 1).drop_last() =~= keys.take(i as int));
                assert(keys.take(i + 1).last() == keys[i as int]);
            }
            if !failed_indices.contains(self.records.key_at(i)) {
                results.push(*self.records.value_at(i));
            }
            i += 1;
        }
        assert(keys.take(i as int) =~= keys);
        SccConclusion { snapshot, failed_indices, results }
    }

    /// Settles the run: notes the order of the batch, installs what succeeded, and gives
    /// what is to run again.
    pub fn settle(
        &self,
        reorders: &mut OrdMap<BatchId, SccReorderRecord>,
        store: &mut RedbInMemoryInodeStore,
    ) -> (r: Result<SccSettled>)
        requires
            old(store).wf(),
        ensures
            final(store).wf(),
            ({
                let batch_id = self@.batch.batch_id;
                let len = self@.batch.txs.len();
                let failed = reorder::failed_slots(self@.slots);
                let noted = reorder::recording(
                    old(reorders)@,
                    final(reorders)@,
                    batch_id,
                    len,
                    failed,
                    Ok(()),
                );
                match r {
                    Ok(settled) => {
                        &&& noted
                        &&& reorder::installation(
                            old(store)@,
                            final(store)@,
                            self@.slots,
                            failed,
                            Ok(()),
                        )
                        &&& settled.failed_indices@ == failed
                        &&& settled.results@ == standing(
                            self@.records,
                            collections::sorted::<usize>(self@.records.dom()),
                            failed,
                        )
                        &&& match settled.again {
                            None => failed == Set::<usize>::empty(),
                            Some(again) => {
                                &&& failed != Set::<usize>::empty()
                                &&& again@ == reorder::fallback_batch(self@.batch, failed)
                            },
                        }
                    },
                    Err(error) => {
                        ||| {
                            &&& reorder::recording(
                                old(reorders)@,
                                final(reorders)@,
                                batch_id,
                                len,
                                failed,
                                Err(error),
                            )
                            &&& final(store)@ == old(store)@
                        }
                        ||| {
                            &&& noted
                            &&& reorder::installation(
                                old(store)@,
                                final(store)@,
                                self@.slots,
                                failed,
                                Err(error),
                            )
                        }
                    },
                }
            }),
    {
        let SccConclusion { snapshot, failed_indices, results } = self.conclude();
        let batch_id = self.batch.batch_id;
        match record_batch_reorder(reorders, batch_id, self.batch.txs.len(), &failed_indices) {
            Ok(_) => {},
            Err(error) => return Err(error),
        }
        match install_scc_successes(store, &snapshot, &failed_indices) {
            Ok(_) => {},
            Err(error) => return Err(error),
        }
        let again = if failed_indices.is_empty() {
            None
        } else {
            Some(fallback_batch_from_failed_indices(&self.batch, &failed_indices))
        };
        Ok(SccSettled { failed_indices, results, again })
    }

    /// What this shard reports of the batch, once the failures were run again.
    pub fn finish(&self, results: Vec<TxResultRecord>, again: Vec<TxResultRecord>) -> (r:
        BatchExecutionSummary)
        ensures
            r.batch_id == self@.batch.batch_id,
            r.shard_id == self@.shard_id,
            batch::sorted_from(results@ + again@, r.tx_results@),
            r.tx_results@.len() == results@.len() + again@.len(),
    {
        let mut all = results;
        let mut again = again;
        all.append(&mut again);
        BatchExecutionSummary {
            batch_id: self.batch.batch_id,
            shard_id: self.shard_id,
            tx_results: sort_records(&all),
        }
    }
}

proof fn lemma_starts(dag: plan::SemanticDag, succ: Seq<Set<usize>>, txs: Seq<OrderedTxView>)
    requires
        dag.wf(),
        dag.nodes.len() == txs.len(),
        succ == dag.nodes@.map_values(|n: plan::DagNode| n.successors@),
        forall|i: int, j: int| #[trigger] dag.edge(i, j) <==> plan::depends(txs, i, j),
    ensures
        forall|i: int, j: usize|
            0 <= i < txs.len() ==> (#[trigger] succ[i].contains(j) <==> plan::depends(
                txs,
                i,
                j as int,
            )),
{
    assert forall|i: int, j: usize| 0 <= i < txs.len() implies (#[trigger] succ[i].contains(j)
        <==> plan::depends(txs, i, j as int)) by {
        assert(succ[i] == dag.nodes[i].successors@);
        if succ[i].contains(j) {
            assert(dag.nodes[i].successors@.contains(j));
            assert(dag.edge(i, j as int));
        }
        if plan::depends(txs, i, j as int) {
            assert(dag.edge(i, j as int));
        }
    }
}

} // verus!
