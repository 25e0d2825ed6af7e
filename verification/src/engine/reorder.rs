//! What becomes of a batch whose transactions ran ahead: the successes are
//! installed, the failures are run again.

use crate::collections;
use crate::collections::{OrdMap, OrdSet};
use crate::error::{BatchFault, Error, Result};
use crate::executor;
use crate::executor::derive_read_write_set;
use crate::indices;
use crate::indices::{indices_below, to_indices};
use crate::model::{
    Batch, BatchId, BatchView, OrderedTx, OrderedTxView, ReorderView, SccReorderRecord,
};
use crate::scc::commit;
use crate::scc::commit::{CommitSlotState, SlotView};
use crate::scc::delta;
use crate::state::State;
use crate::storage;
use crate::storage::RedbInMemoryInodeStore;
use vstd::prelude::*;

verus! {

/// The slots that failed.
pub open spec fn failed_slots(slots: Seq<SlotView>) -> Set<usize> {
    Set::new(|i: usize| i < slots.len() && slots[i as int] == SlotView::Failed)
}

pub fn failed_indices_from_snapshot(snapshot: &Vec<CommitSlotState>) -> (r: OrdSet<usize>)
    ensures
        r@ == failed_slots(commit::slot_views(snapshot@)),
{
    let ghost slots = commit::slot_views(snapshot@);
    let mut failed: OrdSet<usize> = OrdSet::new();
    let mut i: usize = 0;
    assert(failed@ =~= failed_slots(slots.take(0)));
    while i < snapshot.len()
        invariant
            i <= snapshot.len(),
            slots == commit::slot_views(snapshot@),
            failed@ == failed_slots(slots.take(i as int)),
        decreases snapshot.len() - i,
    {
        assert(slots[i as int] == snapshot@[i as int]@);
        if matches!(snapshot[i], CommitSlotState::Failed) {
            let _ = failed.insert(i);
        }
        i += 1;
        assert(failed@ =~= failed_slots(slots.take(i as int)));
    }
    assert(slots.take(i as int) =~= slots);
    failed
}

/// The order of a batch of `len` in which `failed` come last.
pub open spec fn order_with_failures(batch_id: BatchId, len: nat, failed: Set<usize>) -> ReorderView {
    ReorderView {
        batch_id,
        successes: collections::sorted::<usize>(indices::all_indices(len).difference(failed)),
        fallbacks: collections::sorted::<usize>(failed),
    }
}

/// The record of the order of a batch in which `failed_indices` come last.
pub fn batch_reorder(batch_id: BatchId, batch_len: usize, failed_indices: &OrdSet<usize>) -> (r:
    Result<SccReorderRecord>)
    ensures
        match r {
            Ok(record) => {
                &&& failed_indices@.subset_of(indices::all_indices(batch_len as nat))
                &&& record@ == order_with_failures(batch_id, batch_len as nat, failed_indices@)
            },
            Err(Error::InvalidBatch(BatchFault::FailedOutsideBatch { failed, len })) => {
                &&& !failed_indices@.subset_of(indices::all_indices(batch_len as nat))
                &&& failed@ == failed_indices@
                &&& len == batch_len
            },
            Err(_) => false,
        },
{
    let all = indices_below(batch_len);
    if !failed_indices.is_subset(&all) {
        return Err(
            Error::InvalidBatch(
                BatchFault::FailedOutsideBatch { failed: failed_indices.clone(), len: batch_len },
            ),
        );
    }
    let kept = all.difference(failed_indices);
    Ok(
        SccReorderRecord {
            batch_id,
            speculative_success_indices: to_indices(&kept),
            fallback_indices: to_indices(failed_indices),
        },
    )
}

/// What noting the order of a batch does and answers: the order in which `failed` come
/// last is noted, and it is an error where there was one already.
pub open spec fn recording(
    before: Map<BatchId, SccReorderRecord>,
    after: Map<BatchId, SccReorderRecord>,
    batch_id: BatchId,
    batch_len: nat,
    failed: Set<usize>,
    r: Result<()>,
) -> bool {
    let inside = failed.subset_of(indices::all_indices(batch_len));
    let noted = {
        &&& after.dom() == before.dom().insert(batch_id)
        &&& after[batch_id]@ == order_with_failures(batch_id, batch_len, failed)
        &&& forall|id: BatchId|
            id != batch_id && #[trigger] before.contains_key(id) ==> after[id] == before[id]
    };
    match r {
        Ok(_) => inside && !before.contains_key(batch_id) && noted,
        Err(Error::InvalidBatch(BatchFault::FailedOutsideBatch { failed: outside, len })) => {
            &&& !inside
            &&& outside@ == failed && len == batch_len
            &&& after == before
        },
        Err(Error::InvalidBatch(BatchFault::DuplicateBatchReorder { batch_id: id })) => {
            inside && before.contains_key(batch_id) && id == batch_id && noted
        },
        Err(_) => false,
    }
}

/// Notes the order of a batch; a batch has one order only.
pub fn record_batch_reorder(
    reorders: &mut OrdMap<BatchId, SccReorderRecord>,
    batch_id: BatchId,
    batch_len: usize,
    failed_indices: &OrdSet<usize>,
) -> (r: Result<()>)
    ensures
        recording(
            old(reorders)@,
            final(reorders)@,
            batch_id,
            batch_len as nat,
            failed_indices@,
            r,
        ),
{
    let record = match batch_reorder(batch_id, batch_len, failed_indices) {
        Ok(record) => record,
        Err(error) => return Err(error),
    };
    match reorders.insert(batch_id, record) {
        Some(_) => Err(Error::InvalidBatch(BatchFault::DuplicateBatchReorder { batch_id })),
        None => Ok(()),
    }
}

/// `state` with the effects of the first `n` slots installed, but for those in
/// `failed`; nothing where one of them is not a success, or does not fit.
pub open spec fn installed(
    state: State,
    slots: Seq<SlotView>,
    failed: Set<usize>,
    n: int,
) -> Option<State>
    decreases n,
{
    if n <= 0 {
        Some(state)
    } else {
        match installed(state, slots, failed, n - 1) {
            None => None,
            Some(s) => if failed.contains((n - 1) as usize) {
                Some(s)
            } else {
                match slots[n - 1] {
                    SlotView::NoOp => Some(s),
                    SlotView::Delta(ops) => delta::apply_delta(s, ops),
                    SlotView::Pending => None,
                    SlotView::Failed => None,
                }
            },
        }
    }
}

/// Why the installation stopped at slot `n`, where it had come to `reached`.
pub open spec fn install_stop(
    slots: Seq<SlotView>,
    failed: Set<usize>,
    reached: State,
    n: int,
    error: Error,
) -> bool {
    &&& 0 <= n < slots.len()
    &&& !failed.contains(n as usize)
    &&& match error {
        Error::InvalidBatch(BatchFault::SlotStillPending { index }) => index == n && slots[n]
            == SlotView::Pending,
        Error::InvalidBatch(BatchFault::SlotFailedUnlisted { index }) => index == n && slots[n]
            == SlotView::Failed,
        _ => slots[n] is Delta && (storage::store_error(error) || exists|s: State| #[trigger]
            delta::first_misfit(reached, slots[n]->Delta_0, s, error)),
    }
}

/// What installing the slots of a batch does and answers: all effects but those of
/// `failed` are made, or those before the one at which it stopped.
pub open spec fn installation(
    before: State,
    after: State,
    slots: Seq<SlotView>,
    failed: Set<usize>,
    r: Result<()>,
) -> bool {
    match r {
        Ok(_) => installed(before, slots, failed, slots.len() as int) == Some(after),
        Err(error) => exists|n: int, reached: State| #[trigger]
            install_stop(slots, failed, reached, n, error) && installed(before, slots, failed, n)
                == Some(reached) && (after == reached || (error is RedbCommit && installed(
                before,
                slots,
                failed,
                n + 1,
            ) == Some(after))),
    }
}

/// Installs the effects of all slots but those of `failed_indices`, in batch order.
pub fn install_scc_successes(
    store: &mut RedbInMemoryInodeStore,
    snapshot: &Vec<CommitSlotState>,
    failed_indices: &OrdSet<usize>,
) -> (r: Result<()>)
    requires
        old(store).wf(),
    ensures
        final(store).wf(),
        installation(
            old(store)@,
            final(store)@,
            commit::slot_views(snapshot@),
            failed_indices@,
            r,
        ),
{
    let ghost slots = commit::slot_views(snapshot@);
    let ghost failed = failed_indices@;
    let mut i: usize = 0;
    while i < snapshot.len()
        invariant
            i <= snapshot.len(),
            slots == commit::slot_views(snapshot@),
            failed == failed_indices@,
            store.wf(),
            installed(old(store)@, slots, failed, i as int) == Some(store@),
        decreases snapshot.len() - i,
    {
        let ghost reached = store@;
        assert(slots[i as int] == snapshot@[i as int]@);
        if !failed_indices.contains(&i) {
            match &snapshot[i] {
                CommitSlotState::Pending => {
                    let error = Error::InvalidBatch(BatchFault::SlotStillPending { index: i });
                    assert(install_stop(slots, failed, reached, i as int, error));
                    return Err(error);
                },
                CommitSlotState::Failed => {
                    let error = Error::InvalidBatch(BatchFault::SlotFailedUnlisted { index: i });
                    assert(install_stop(slots, failed, reached, i as int, error));
                    return Err(error);
                },
                CommitSlotState::NoOp => {},
                CommitSlotState::Delta(delta) => {
                    match store.apply_delta_atomically(delta) {
                        Ok(_) => {},
                        Err(error) => {
                            proof {
                                assert(slots[i as int] == SlotView::Delta(delta@));
                                if !storage::store_error(error) {
                                    let s = choose|s: State| #[trigger]
                                        delta::first_misfit(reached, delta@, s, error);
                                    assert(delta::first_misfit(
                                        reached,
                                        slots[i as int]->Delta_0,
                                        s,
                                        error,
                                    ));
                                }
                                lemma_delta_stop(reached, slots, failed, i as int, error);
                            }
                            return Err(error);
                        },
                    }
                },
            }
        }
        i += 1;
    }
    Ok(())
}

/// An error of the store or a misfit stops the installation at a delta.
proof fn lemma_delta_stop(
    reached: State,
    slots: Seq<SlotView>,
    failed: Set<usize>,
    n: int,
    error: Error,
)
    requires
        0 <= n < slots.len(),
        !failed.contains(n as usize),
        slots[n] is Delta,
        storage::store_error(error) || exists|s: State| #[trigger]
            delta::first_misfit(reached, slots[n]->Delta_0, s, error),
    ensures
        install_stop(slots, failed, reached, n, error),
{
    if !storage::store_error(error) {
        let s = choose|s: State| #[trigger]
            delta::first_misfit(reached, slots[n]->Delta_0, s, error);
        let ops = slots[n]->Delta_0;
        let i = choose|i: int|
            0 <= i < ops.len() && #[trigger] delta::apply_delta(reached, ops.take(i)) == Some(s)
                && delta::misfit(s, ops[i], error);
        assert(delta::misfit(s, ops[i], error));
    }
}

/// The transactions of `batch` at `failed`, in batch order, as a batch of their own.
pub open spec fn fallback_batch(batch: BatchView, failed: Set<usize>) -> BatchView {
    let order = collections::sorted::<usize>(failed);
    BatchView {
        batch_id: batch.batch_id,
        txs: Seq::new(
            order.len(),
            |k: int| OrderedTxView { batch_index: k as u32, ..batch.txs[order[k] as int] },
        ),
    }
}

/// The transactions that failed, in batch order, as a batch of their own.
pub fn fallback_batch_from_failed_indices(batch: &Batch, failed_indices: &OrdSet<usize>) -> (r:
    Batch)
    requires
        failed_indices@.subset_of(indices::all_indices(batch@.txs.len())),
    ensures
        r@ == fallback_batch(batch@, failed_indices@),
{
    let n = failed_indices.len();
    let ghost order = failed_indices.ordered();
    let mut txs: Vec<OrderedTx> = Vec::new();
    let mut k: usize = 0;
    while k < n
        invariant
            k <= n,
            n == order.len(),
            order == failed_indices.ordered(),
            failed_indices@.subset_of(indices::all_indices(batch@.txs.len())),
            txs.len() == k,
            forall|j: int|
                0 <= j < k ==> (#[trigger] txs@[j])@ == (OrderedTxView {
                    batch_index: j as u32,
                    ..batch@.txs[order[j] as int]
                }),
        decreases n - k,
    {
        let index = *failed_indices.at(k);
        assert(indices::all_indices(batch@.txs.len()).contains(index));
        let mut tx = batch.txs[index].clone();
        tx.batch_index = k as u32;
        txs.push(tx);
        k += 1;
    }
    let r = Batch { batch_id: batch.batch_id, txs };
    assert(r@.txs =~= fallback_batch(batch@, failed_indices@).txs);
    r
}

/// `tx` with the key sets of its operation.
pub open spec fn with_derived_sets(tx: OrderedTxView) -> OrderedTxView {
    OrderedTxView {
        read_set: executor::read_keys(tx.op),
        write_set: executor::write_keys(tx.op),
        ..tx
    }
}

pub fn tx_with_derived_sets(tx: &OrderedTx) -> (r: Result<OrderedTx>)
    ensures
        match r {
            Ok(derived) => derived@ == with_derived_sets(tx@),
            Err(_) => false,
        },
{
    let (read_set, write_set) = derive_read_write_set(&tx.op)?;
    Ok(
        OrderedTx {
            tx_id: tx.tx_id,
            batch_index: tx.batch_index,
            op: tx.op.clone(),
            read_set,
            write_set,
        },
    )
}

/// The same as [`fallback_batch`], with the key sets of the operations.
pub open spec fn derived_fallback_batch(batch: BatchView, failed: Set<usize>) -> BatchView {
    let plain = fallback_batch(batch, failed);
    BatchView {
        batch_id: plain.batch_id,
        txs: plain.txs.map_values(|tx: OrderedTxView| with_derived_sets(tx)),
    }
}

pub fn fallback_batch_from_failed_indices_with_derived_sets(
    batch: &Batch,
    failed_indices: &OrdSet<usize>,
) -> (r: Result<Batch>)
    requires
        failed_indices@.subset_of(indices::all_indices(batch@.txs.len())),
    ensures
        match r {
            Ok(fallback) => fallback@ == derived_fallback_batch(batch@, failed_indices@),
            Err(_) => false,
        },
{
    let plain = fallback_batch_from_failed_indices(batch, failed_indices);
    let mut txs: Vec<OrderedTx> = Vec::new();
    let mut k: usize = 0;
    while k < plain.txs.len()
        invariant
            k <= plain.txs.len(),
            txs.len() == k,
            forall|j: int|
                0 <= j < k ==> (#[trigger] txs@[j])@ == with_derived_sets(plain.txs@[j]@),
        decreases plain.txs.len() - k,
    {
        let tx = tx_with_derived_sets(&plain.txs[k])?;
        txs.push(tx);
        k += 1;
    }
    let r = Batch { batch_id: batch.batch_id, txs };
    assert(r@.txs =~= derived_fallback_batch(batch@, failed_indices@).txs);
    Ok(r)
}

} // verus!
