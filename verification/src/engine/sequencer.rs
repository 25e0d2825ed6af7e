//! Putting transactions into batches.

use crate::collections::OrdMap;
use crate::engine::aria;
use crate::engine::aria::aria_result_shard;
use crate::engine::batch;
use crate::engine::batch::sort_records;
use crate::engine::calvin;
use crate::engine::calvin::result_shard_of;
use crate::error::{Error, Result};
use crate::executor;
use crate::executor::derive_read_write_set;
use crate::model;
use crate::model::{
    Batch, BatchId, BatchView, FsOp, FsOpView, OrderedTx, OrderedTxView, ShardId, TxId,
    TxResultRecord,
};
use crate::router;
use crate::router::ShardLayout;
use vstd::prelude::*;

verus! {

/// Which shard answers to the client.
#[derive(Clone, Copy, Debug, PartialEq, Eq, Structural)]
pub enum SequencerResultPolicy {
    /// The least of those that run the transaction, by its key sets.
    StaticReadWriteSet,
    /// The one that the transaction's id picks.
    TxIdModulo,
}

impl Default for SequencerResultPolicy {
    fn default() -> (r: Self)
        ensures
            r == SequencerResultPolicy::StaticReadWriteSet,
    {
        SequencerResultPolicy::StaticReadWriteSet
    }
}

#[derive(Debug)]
pub struct SequencerConfig {
    pub node_id: String,
    pub shard_count: u64,
    pub shard_endpoints: OrdMap<ShardId, String>,
    pub max_batch_size: usize,
    /// How long a batch stays open, in nanoseconds.
    pub batch_flush_interval: u64,
    pub result_policy: SequencerResultPolicy,
}

impl SequencerConfig {
    /// One millisecond.
    pub fn default_batch_flush_interval() -> (r: u64)
        ensures
            r == 1_000_000,
    {
        1_000_000
    }
}

/// What a client gets for a batch once it ran.
#[derive(Debug)]
pub struct SubmitBatchSummary {
    pub batch_id: BatchId,
    pub tx_ids: Vec<TxId>,
    pub tx_results: Vec<TxResultRecord>,
}

/// What a client gets for a transaction: its id, and which shard to ask.
#[derive(Clone, Copy, Debug, PartialEq, Eq, Structural)]
pub struct SubmitTxAck {
    pub tx_id: TxId,
    pub result_shard: ShardId,
}

/// A batch that is ready to run.
#[derive(Debug)]
pub struct SealedBatch {
    pub batch: Batch,
    pub tx_ids: Vec<TxId>,
}

impl SealedBatch {
    /// The ids are those of the transactions.
    pub open spec fn wf(&self) -> bool {
        self.tx_ids@ == ids_of(self.batch@.txs)
    }
}

/// What becomes of a transaction that was submitted.
#[derive(Debug)]
pub struct SubmittedTx {
    pub ack: SubmitTxAck,
    /// The batch that was opened for it, which is to be flushed in time.
    pub opened: Option<BatchId>,
    /// The batch that it made full.
    pub sealed: Option<SealedBatch>,
}

/// What becomes of operations that were submitted together.
#[derive(Debug)]
pub struct SubmittedBatch {
    /// The batch that was open, which runs first.
    pub flushed: Option<SealedBatch>,
    pub sealed: SealedBatch,
}

/// The ids of transactions.
pub open spec fn ids_of(txs: Seq<OrderedTxView>) -> Seq<TxId> {
    txs.map_values(|tx: OrderedTxView| tx.tx_id)
}

/// `op` as a transaction at place `index` of a batch.
pub open spec fn tx_for(op: FsOpView, tx_id: TxId, index: int) -> OrderedTxView {
    OrderedTxView {
        tx_id,
        batch_index: index as u32,
        op,
        read_set: executor::read_keys(op),
        write_set: executor::write_keys(op),
    }
}

/// `ops` as the transactions of a batch, with ids from `first`.
pub open spec fn txs_for(ops: Seq<FsOpView>, first: TxId) -> Seq<OrderedTxView> {
    Seq::new(ops.len(), |i: int| tx_for(ops[i], (first + i) as TxId, i))
}

/// The views of operations.
pub open spec fn op_views(ops: Seq<FsOp>) -> Seq<FsOpView> {
    ops.map_values(|op: FsOp| op@)
}

/// `shard` answers for `tx`.
pub open spec fn answers_for(
    policy: SequencerResultPolicy,
    shard_count: u64,
    tx: OrderedTxView,
    shard: ShardId,
) -> bool {
    match policy {
        SequencerResultPolicy::StaticReadWriteSet => router::least_shard(
            calvin::active_shards(shard_count, tx),
            shard,
        ),
        SequencerResultPolicy::TxIdModulo => shard == aria::result_shard(tx.tx_id, shard_count),
    }
}

/// The batch that takes in single transactions.
struct OpenBatch {
    batch_id: BatchId,
    txs: Vec<OrderedTx>,
    tx_ids: Vec<TxId>,
}

/// Gives out ids and fills batches.
pub struct Sequencer {
    layout: ShardLayout,
    result_policy: SequencerResultPolicy,
    max_batch_size: usize,
    next_batch_id: BatchId,
    next_tx_id: TxId,
    open_batch: Option<OpenBatch>,
}

#[verifier::ext_equal]
pub struct SequencerView {
    pub shard_count: u64,
    pub policy: SequencerResultPolicy,
    pub max_batch_size: usize,
    pub next_batch_id: BatchId,
    pub next_tx_id: TxId,
    pub open: Option<BatchView>,
}

impl View for Sequencer {
    type V = SequencerView;

    closed spec fn view(&self) -> SequencerView {
        SequencerView {
            shard_count: self.layout.shard_count,
            policy: self.result_policy,
            max_batch_size: self.max_batch_size,
            next_batch_id: self.next_batch_id,
            next_tx_id: self.next_tx_id,
            open: match self.open_batch {
                Some(open) => Some(
                    BatchView { batch_id: open.batch_id, txs: model::tx_views(open.txs@) },
                ),
                None => None,
            },
        }
    }
}

impl SequencerView {
    /// The batch that is open, or would be opened next.
    pub open spec fn current(self) -> BatchView {
        match self.open {
            Some(open) => open,
            None => BatchView { batch_id: self.next_batch_id, txs: Seq::empty() },
        }
    }

    /// The open batch is not empty nor full, every transaction in it has its place, a
    /// smaller id than those to come and the key sets of its operation.
    pub open spec fn sound(self) -> bool {
        &&& self.shard_count > 0
        &&& match self.open {
            None => true,
            Some(open) => {
                &&& open.batch_id < self.next_batch_id
                &&& 0 < open.txs.len()
                &&& open.txs.len() < self.max_batch_size
                &&& well_formed(open.txs, self.next_tx_id)
            },
        }
    }
}

/// The transactions have ascending ids below `bound`, their places and the key sets of
/// their operations.
pub open spec fn well_formed(txs: Seq<OrderedTxView>, bound: TxId) -> bool {
    &&& forall|i: int|
        0 <= i < txs.len() ==> (#[trigger] txs[i]).tx_id < bound && txs[i] == tx_for(
            txs[i].op,
            txs[i].tx_id,
            i,
        )
    &&& forall|i: int, j: int|
        0 <= i < j < txs.len() ==> (#[trigger] txs[i]).tx_id < (#[trigger] txs[j]).tx_id
}

/// What taking `op` in does and answers: it is the last of the open batch, or the first of
/// a new one, and the batch is closed where that makes it full.
pub open spec fn takes_in(
    before: SequencerView,
    op: FsOpView,
    done: SubmittedTx,
    after: SequencerView,
) -> bool {
    let tx_id = before.next_tx_id;
    let current = before.current();
    let tx = tx_for(op, tx_id, current.txs.len() as int);
    let grown = BatchView { batch_id: current.batch_id, txs: current.txs.push(tx) };
    let full = grown.txs.len() >= before.max_batch_size;
    &&& done.ack.tx_id == tx_id
    &&& answers_for(before.policy, before.shard_count, tx, done.ack.result_shard)
    &&& done.opened == (if before.open is None {
        Some(before.next_batch_id)
    } else {
        None
    })
    &&& match done.sealed {
        Some(sealed) => full && sealed.wf() && sealed.batch@ == grown && well_formed(
            grown.txs,
            after.next_tx_id,
        ),
        None => !full,
    }
    &&& after == (SequencerView {
        next_tx_id: (tx_id + 1) as u64,
        next_batch_id: if before.open is None {
            (before.next_batch_id + 1) as u64
        } else {
            before.next_batch_id
        },
        open: if full {
            None
        } else {
            Some(grown)
        },
        ..before
    })
}

/// What closing the open batch does and answers.
pub open spec fn closes(
    before: SequencerView,
    sealed: Option<SealedBatch>,
    after: SequencerView,
) -> bool {
    &&& after == (SequencerView { open: None, ..before })
    &&& match sealed {
        Some(sealed) => sealed.wf() && before.open == Some(sealed.batch@) && well_formed(
            sealed.batch@.txs,
            before.next_tx_id,
        ),
        None => before.open is None,
    }
}

/// What taking `ops` in as a batch does and answers: the open batch is closed first.
pub open spec fn takes_in_batch(
    before: SequencerView,
    ops: Seq<FsOpView>,
    done: SubmittedBatch,
    after: SequencerView,
) -> bool {
    &&& ops.len() <= before.max_batch_size
    &&& closes(before, done.flushed, SequencerView { open: None, ..before })
    &&& done.sealed.wf()
    &&& done.sealed.batch@ == (BatchView {
        batch_id: before.next_batch_id,
        txs: txs_for(ops, before.next_tx_id),
    })
    &&& after == (SequencerView {
        next_batch_id: (before.next_batch_id + 1) as u64,
        next_tx_id: (before.next_tx_id + ops.len()) as u64,
        open: None,
        ..before
    })
}

/// A transaction for `op`.
fn new_tx(op: FsOp, tx_id: TxId, index: usize) -> (r: Result<OrderedTx>)
    ensures
        match r {
            Ok(tx) => tx@ == tx_for(op@, tx_id, index as int),
            Err(_) => false,
        },
{
    let (read_set, write_set) = derive_read_write_set(&op)?;
    Ok(OrderedTx { tx_id, batch_index: index as u32, op, read_set, write_set })
}

impl Sequencer {
    pub closed spec fn wf(&self) -> bool {
        &&& self@.sound()
        &&& match self.open_batch {
            Some(open) => open.tx_ids@ == ids_of(model::tx_views(open.txs@)),
            None => true,
        }
    }

    pub fn new(
        layout: ShardLayout,
        result_policy: SequencerResultPolicy,
        max_batch_size: usize,
    ) -> (r: Self)
        requires
            layout.wf(),
        ensures
            r.wf(),
            r@ == (SequencerView {
                shard_count: layout.shard_count,
                policy: result_policy,
                max_batch_size,
                next_batch_id: 1,
                next_tx_id: 1,
                open: None,
            }),
    {
        Sequencer {
            layout,
            result_policy,
            max_batch_size,
            next_batch_id: 1,
            next_tx_id: 1,
            open_batch: None,
        }
    }

    /// Whether there are ids for one more batch of `tx_count` transactions.
    pub fn has_ids_for(&self, tx_count: usize) -> (r: bool)
        ensures
            r == (self@.next_batch_id < u64::MAX && self@.next_tx_id + tx_count <= u64::MAX),
    {
        self.next_batch_id < u64::MAX && tx_count as u64 <= u64::MAX - self.next_tx_id
    }

    fn result_shard_for_tx(&self, tx: &OrderedTx) -> (r: ShardId)
        requires
            self.wf(),
            calvin::sets_match(tx@),
        ensures
            answers_for(self@.policy, self@.shard_count, tx@, r),
    {
        match self.result_policy {
            SequencerResultPolicy::StaticReadWriteSet => result_shard_of(&self.layout, tx),
            SequencerResultPolicy::TxIdModulo => aria_result_shard(
                tx.tx_id,
                self.layout.shard_count,
            ),
        }
    }

    fn take_next_batch_id(&mut self) -> (r: BatchId)
        requires
            old(self)@.next_batch_id < u64::MAX,
        ensures
            r == old(self)@.next_batch_id,
            final(self)@ == (SequencerView { next_batch_id: (r + 1) as u64, ..old(self)@ }),
            final(self).open_batch == old(self).open_batch,
    {
        let batch_id = self.next_batch_id;
        self.next_batch_id = self.next_batch_id + 1;
        batch_id
    }

    /// Takes a transaction in: puts it into the open batch, or opens one, and closes the
    /// batch where that makes it full.
    pub fn handle_submit_tx(&mut self, op: FsOp) -> (r: Result<SubmittedTx>)
        requires
            old(self).wf(),
            old(self)@.next_tx_id < u64::MAX,
            old(self)@.next_batch_id < u64::MAX,
        ensures
            final(self).wf(),
            match r {
                Ok(done) => takes_in(old(self)@, op@, done, final(self)@),
                Err(_) => false,
            },
    {
        let ghost v = self@;
        let tx_id = self.next_tx_id;
        let mut taken: Option<OpenBatch> = None;
        std::mem::swap(&mut taken, &mut self.open_batch);
        let mut opened: Option<BatchId> = None;
        let mut open = match taken {
            Some(open) => open,
            None => {
                let batch_id = self.take_next_batch_id();
                opened = Some(batch_id);
                OpenBatch { batch_id, txs: Vec::new(), tx_ids: Vec::new() }
            },
        };
        proof {
            assert(model::tx_views(open.txs@) =~= v.current().txs);
            assert(open.tx_ids@ =~= ids_of(v.current().txs));
        }
        let ghost before = open.txs@;
        let tx = new_tx(op, tx_id, open.txs.len())?;
        let ghost view = tx@;
        assert(calvin::sets_match(view));
        let result_shard = self.result_shard_for_tx(&tx);
        open.tx_ids.push(tx_id);
        open.txs.push(tx);
        self.next_tx_id = self.next_tx_id + 1;
        proof {
            assert(model::tx_views(open.txs@) =~= v.current().txs.push(view));
            assert(ids_of(v.current().txs.push(view)) =~= ids_of(v.current().txs).push(tx_id));
        }
        let ack = SubmitTxAck { tx_id, result_shard };
        if open.txs.len() >= self.max_batch_size {
            let sealed = SealedBatch {
                batch: Batch { batch_id: open.batch_id, txs: open.txs },
                tx_ids: open.tx_ids,
            };
            Ok(SubmittedTx { ack, opened, sealed: Some(sealed) })
        } else {
            self.open_batch = Some(open);
            Ok(SubmittedTx { ack, opened, sealed: None })
        }
    }

    /// Closes the open batch, if there is one.
    pub fn seal_open_batch(&mut self) -> (r: Option<SealedBatch>)
        requires
            old(self).wf(),
        ensures
            final(self).wf(),
            closes(old(self)@, r, final(self)@),
    {
        let mut taken: Option<OpenBatch> = None;
        std::mem::swap(&mut taken, &mut self.open_batch);
        match taken {
            Some(open) => Some(
                SealedBatch {
                    batch: Batch { batch_id: open.batch_id, txs: open.txs },
                    tx_ids: open.tx_ids,
                },
            ),
            None => None,
        }
    }

    /// Closes the open batch if it is still the one with this id: its time is up.
    pub fn flush_open(&mut self, batch_id: BatchId) -> (r: Option<SealedBatch>)
        requires
            old(self).wf(),
        ensures
            final(self).wf(),
            ({
                let due = old(self)@.open is Some && old(self)@.open->0.batch_id == batch_id;
                if due {
                    r is Some && closes(old(self)@, r, final(self)@)
                } else {
                    r is None && final(self)@ == old(self)@
                }
            }),
    {
        let due = match &self.open_batch {
            Some(open) => open.batch_id == batch_id,
            None => false,
        };
        if due {
            self.seal_open_batch()
        } else {
            None
        }
    }

    /// Takes many operations in as a batch of their own, where these are not too many for
    /// one. The open batch is closed first.
    pub fn handle_submit_batch(&mut self, ops: Vec<FsOp>) -> (r: Result<SubmittedBatch>)
        requires
            old(self).wf(),
            ops.len() <= old(self)@.max_batch_size ==> old(self)@.next_batch_id < u64::MAX && old(
                self,
            )@.next_tx_id + ops.len() <= u64::MAX,
        ensures
            final(self).wf(),
            match r {
                Ok(done) => takes_in_batch(old(self)@, op_views(ops@), done, final(self)@),
                Err(error) => {
                    &&& ops.len() > old(self)@.max_batch_size
                    &&& error == (Error::BatchTooLarge {
                        size: ops.len(),
                        max: old(self)@.max_batch_size,
                    })
                    &&& final(self)@ == old(self)@
                },
            },
    {
        if ops.len() > self.max_batch_size {
            return Err(Error::BatchTooLarge { size: ops.len(), max: self.max_batch_size });
        }
        let flushed = self.seal_open_batch();
        let sealed = self.batch_of(ops)?;
        Ok(SubmittedBatch { flushed, sealed })
    }

    /// Makes a batch of `ops` alone.
    fn batch_of(&mut self, ops: Vec<FsOp>) -> (r: Result<SealedBatch>)
        requires
            old(self).wf(),
            old(self)@.next_batch_id < u64::MAX,
            old(self)@.next_tx_id + ops.len() <= u64::MAX,
        ensures
            final(self).wf(),
            ({
                let v = old(self)@;
                match r {
                    Ok(sealed) => {
                        &&& sealed.wf()
                        &&& sealed.batch@ == (BatchView {
                            batch_id: v.next_batch_id,
                            txs: txs_for(op_views(ops@), v.next_tx_id),
                        })
                        &&& final(self)@ == (SequencerView {
                            next_batch_id: (v.next_batch_id + 1) as u64,
                            next_tx_id: (v.next_tx_id + ops.len()) as u64,
                            ..v
                        })
                    },
                    Err(_) => false,
                }
            }),
    {
        let ghost v = self@;
        let ghost views = op_views(ops@);
        let batch_id = self.take_next_batch_id();
        let mut txs: Vec<OrderedTx> = Vec::new();
        let mut tx_ids: Vec<TxId> = Vec::new();
        let mut i: usize = 0;
        while i < ops.len()
            invariant
                i <= ops.len(),
                views == op_views(ops@),
                self.wf(),
                v == old(self)@,
                v.next_tx_id + ops.len() <= u64::MAX,
                self@ == (SequencerView {
                    next_batch_id: (v.next_batch_id + 1) as u64,
                    next_tx_id: (v.next_tx_id + i) as u64,
                    ..v
                }),
                txs.len() == i,
                tx_ids.len() == i,
                forall|j: int|
                    0 <= j < i ==> (#[trigger] txs@[j])@ == tx_for(
                        views[j],
                        (v.next_tx_id + j) as TxId,
                        j,
                    ),
                forall|j: int| 0 <= j < i ==> #[trigger] tx_ids@[j] == v.next_tx_id + j,
            decreases ops.len() - i,
        {
            let tx_id = self.next_tx_id;
            assert(views[i as int] == ops@[i as int]@);
            let tx = new_tx(ops[i].clone(), tx_id, i)?;
            tx_ids.push(tx_id);
            txs.push(tx);
            self.next_tx_id = self.next_tx_id + 1;
            i += 1;
        }
        let sealed = SealedBatch { batch: Batch { batch_id, txs }, tx_ids };
        proof {
            assert(sealed.batch@.txs =~= txs_for(views, v.next_tx_id));
            assert(sealed.tx_ids@ =~= ids_of(sealed.batch@.txs));
        }
        Ok(sealed)
    }
}

/// The records of all shards, one after the other.
pub open spec fn all_records(reports: Seq<Vec<TxResultRecord>>) -> Seq<TxResultRecord>
    decreases reports.len(),
{
    if reports.len() == 0 {
        Seq::empty()
    } else {
        all_records(reports.drop_last()) + reports.last()@
    }
}

/// What a client gets for a batch on which all shards have reported.
pub fn batch_summary(
    batch_id: BatchId,
    tx_ids: Vec<TxId>,
    reports: &Vec<Vec<TxResultRecord>>,
) -> (r: SubmitBatchSummary)
    ensures
        r.batch_id == batch_id,
        r.tx_ids == tx_ids,
        batch::sorted_from(all_records(reports@), r.tx_results@),
        r.tx_results@.len() == all_records(reports@).len(),
{
    let mut all: Vec<TxResultRecord> = Vec::new();
    let mut i: usize = 0;
    assert(reports@.take(0) =~= Seq::<Vec<TxResultRecord>>::empty());
    while i < reports.len()
        invariant
            i <= reports.len(),
            all@ == all_records(reports@.take(i as int)),
        decreases reports.len() - i,
    {
        let report = &reports[i];
        let ghost before = all@;
        let mut k: usize = 0;
        while k < report.len()
            invariant
                k <= report.len(),
                all@ == before + report@.take(k as int),
            decreases report.len() - k,
        {
            all.push(report[k]);
            k += 1;
            assert(all@ =~= before + report@.take(k as int));
        }
        assert(report@.take(k as int) =~= report@);
        i += 1;
        proof {
            assert(reports@.take(i as int).drop_last() =~= reports@.take(i - 1));
            assert(reports@.take(i as int).last() == reports@[i - 1]);
        }
    }
    assert(reports@.take(i as int) =~= reports@);
    SubmitBatchSummary { batch_id, tx_ids, tx_results: sort_records(&all) }
}

/// Every batch that is closed while single transactions come in is one that shards
/// accept: its order is sound and the key sets are those of the operations.
pub proof fn lemma_sealed_accepted(txs: Seq<OrderedTxView>, bound: TxId)
    requires
        well_formed(txs, bound),
        txs.len() <= u32::MAX + 1,
    ensures
        batch::in_order(txs, txs.len() as int),
        forall|i: int| 0 <= i < txs.len() ==> calvin::sets_match(#[trigger] txs[i]),
{
    assert forall|i: int| 0 <= i < txs.len() implies (#[trigger] txs[i]).batch_index == i by {
        assert(txs[i] == tx_for(txs[i].op, txs[i].tx_id, i));
    }
    assert forall|i: int, j: int| 0 <= i < j < txs.len() implies (#[trigger] txs[i]).tx_id != (
    #[trigger] txs[j]).tx_id by {
        assert(txs[i].tx_id < txs[j].tx_id);
    }
    assert forall|i: int| 0 <= i < txs.len() implies calvin::sets_match(#[trigger] txs[i]) by {
        assert(txs[i] == tx_for(txs[i].op, txs[i].tx_id, i));
    }
}

/// Every batch made of operations at once is one that shards accept.
pub proof fn lemma_submitted_accepted(ops: Seq<FsOpView>, first: TxId)
    requires
        first + ops.len() <= u64::MAX,
        ops.len() <= u32::MAX + 1,
    ensures
        batch::in_order(txs_for(ops, first), ops.len() as int),
        forall|i: int|
            0 <= i < ops.len() ==> calvin::sets_match(#[trigger] txs_for(ops, first)[i]),
{
    let txs = txs_for(ops, first);
    assert(well_formed(txs, (first + ops.len()) as TxId));
    lemma_sealed_accepted(txs, (first + ops.len()) as TxId);
}

} // verus!
