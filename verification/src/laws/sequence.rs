//! The order in which the sequencer closes batches.

use crate::engine::sequencer;
use crate::engine::sequencer::{SealedBatch, SequencerView, SubmittedBatch, SubmittedTx};
use crate::model::{BatchView, FsOpView, TxId};
use vstd::prelude::*;

verus! {

/// The first id of a transaction that is not in a closed batch.
pub open spec fn first_open_id(v: SequencerView) -> TxId {
    match v.open {
        Some(open) => open.txs[0].tx_id,
        None => v.next_tx_id,
    }
}

/// `batch` was closed before the open batch was opened, and before all that are to come.
pub open spec fn closed_before(batch: BatchView, v: SequencerView) -> bool {
    &&& batch.batch_id < v.current().batch_id
    &&& forall|i: int| 0 <= i < batch.txs.len() ==> (#[trigger] batch.txs[i]).tx_id < first_open_id(v)
}

/// All ids of `a` are smaller than those of `b`.
pub open spec fn comes_before(a: BatchView, b: BatchView) -> bool {
    &&& a.batch_id < b.batch_id
    &&& forall|i: int, j: int|
        0 <= i < a.txs.len() && 0 <= j < b.txs.len() ==> (#[trigger] a.txs[i]).tx_id < (
        #[trigger] b.txs[j]).tx_id
}

/// Taking a transaction in keeps the order: a batch that it closes comes after all that
/// were closed.
pub proof fn lemma_tx_keeps_order(
    batch: BatchView,
    before: SequencerView,
    op: FsOpView,
    done: SubmittedTx,
    after: SequencerView,
)
    requires
        before.sound(),
        before.next_tx_id < u64::MAX,
        before.next_batch_id < u64::MAX,
        closed_before(batch, before),
        sequencer::takes_in(before, op, done, after),
    ensures
        closed_before(batch, after),
        done.sealed matches Some(sealed) ==> comes_before(batch, sealed.batch@) && closed_before(
            sealed.batch@,
            after,
        ),
{
    let current = before.current();
    let tx = sequencer::tx_for(op, before.next_tx_id, current.txs.len() as int);
    let grown = current.txs.push(tx);
    assert forall|j: int| 0 <= j < grown.len() implies first_open_id(before) <= (
    #[trigger] grown[j]).tx_id < after.next_tx_id by {
        if j < current.txs.len() && j > 0 {
            assert(current.txs[0].tx_id < current.txs[j].tx_id);
        }
    }
    assert(grown[0].tx_id == first_open_id(before));
}

/// Closing the open batch keeps the order: it comes after all that were closed.
pub proof fn lemma_closing_keeps_order(
    batch: BatchView,
    before: SequencerView,
    sealed: Option<SealedBatch>,
    after: SequencerView,
)
    requires
        before.sound(),
        closed_before(batch, before),
        sequencer::closes(before, sealed, after),
    ensures
        closed_before(batch, after),
        sealed matches Some(closed) ==> comes_before(batch, closed.batch@) && closed_before(
            closed.batch@,
            after,
        ),
{
    if before.open is Some {
        let open = before.open->0;
        assert forall|j: int| 0 <= j < open.txs.len() implies first_open_id(before) <= (
        #[trigger] open.txs[j]).tx_id < before.next_tx_id by {
            if j > 0 {
                assert(open.txs[0].tx_id < open.txs[j].tx_id);
            }
        }
        assert(first_open_id(before) < before.next_tx_id) by {
            assert(open.txs[0].tx_id < before.next_tx_id);
        }
    }
}

/// Taking operations in as a batch keeps the order: first comes what was open, then they.
pub proof fn lemma_batch_keeps_order(
    batch: BatchView,
    before: SequencerView,
    ops: Seq<FsOpView>,
    done: SubmittedBatch,
    after: SequencerView,
)
    requires
        before.sound(),
        before.next_batch_id < u64::MAX,
        before.next_tx_id + ops.len() <= u64::MAX,
        closed_before(batch, before),
        sequencer::takes_in_batch(before, ops, done, after),
    ensures
        closed_before(batch, after),
        comes_before(batch, done.sealed.batch@),
        closed_before(done.sealed.batch@, after),
        done.flushed matches Some(flushed) ==> comes_before(batch, flushed.batch@)
            && comes_before(flushed.batch@, done.sealed.batch@) && closed_before(
            flushed.batch@,
            after,
        ),
{
    let middle = SequencerView { open: None, ..before };
    lemma_closing_keeps_order(batch, before, done.flushed, middle);
    let txs = sequencer::txs_for(ops, before.next_tx_id);
    assert forall|j: int| 0 <= j < txs.len() implies before.next_tx_id <= (
    #[trigger] txs[j]).tx_id < after.next_tx_id by {
        assert(txs[j].tx_id == before.next_tx_id + j);
    }
}

} // verus!
