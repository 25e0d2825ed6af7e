//! Calls that check a batch, run part of it, and order it anew after failures.

use crate::collections;
use crate::collections::{OrdMap, OrdSet};
use crate::engine::batch;
use crate::engine::batch::{
    execute_checked, run_on_shard, sort_records, validate_batch_order, validate_local_writes,
    LocalOutcome,
};
use crate::engine::reorder;
use crate::engine::reorder::{
    batch_reorder, failed_indices_from_snapshot, fallback_batch_from_failed_indices,
    fallback_batch_from_failed_indices_with_derived_sets, install_scc_successes,
    record_batch_reorder, tx_with_derived_sets,
};
use crate::error::{BatchFault, Error, Result};
use crate::executor;
use crate::executor::derive_read_write_set;
use crate::indices;
use crate::laws::operations;
use crate::laws::outcomes;
use crate::model;
use crate::model::{
    Batch, BatchId, Key, OrderedTx, OrderedTxView, ReadValue, SccReorderRecord, ShardId,
    TxExecutionOutput, TxId, TxResultRecord, WriteOp, WriteOpView,
};
use crate::router;
use crate::router::ShardLayout;
use crate::scc::commit::{CommitSlotState, SlotView};
use crate::scc::delta;
use crate::state;
use crate::state::State;
use crate::storage::RedbInMemoryInodeStore;
use vstd::prelude::*;

verus! {

/// A batch is in order if and only if each transaction carries its place and no two have
/// the same id; a refusal names one that does not.
pub proof fn lemma_order_checked_call(b: &Batch, r: Result<()>)
    requires
        call_ensures(validate_batch_order, (b,), r),
    ensures
        r is Ok <==> (forall|i: int|
            0 <= i < b@.txs.len() ==> (#[trigger] b@.txs[i]).batch_index == i) && forall|
            i: int,
            j: int,
        |
            0 <= i < j < b@.txs.len() ==> (#[trigger] b@.txs[i]).tx_id != (
            #[trigger] b@.txs[j]).tx_id,
        r matches Err(error) ==> match error {
            Error::InvalidBatch(BatchFault::OutOfOrder { tx_id, batch_index, expected }) => {
                &&& expected < b@.txs.len() && batch_index != expected
                &&& b@.txs[expected as int].tx_id == tx_id
                &&& b@.txs[expected as int].batch_index == batch_index
            },
            Error::InvalidBatch(BatchFault::DuplicateTx { tx_id, batch_id }) => {
                &&& batch_id == b@.batch_id
                &&& exists|i: int, j: int|
                    0 <= i < j < b@.txs.len() && (#[trigger] b@.txs[i]).tx_id == tx_id && (
                    #[trigger] b@.txs[j]).tx_id == tx_id
            },
            _ => false,
        },
{
    if let Err(Error::InvalidBatch(BatchFault::DuplicateTx { tx_id, batch_id })) = r {
        let n = choose|n: int|
            0 <= n < b@.txs.len() && #[trigger] batch::in_order(b@.txs, n)
                && b@.txs[n].batch_index == n && b@.txs[n].tx_id == tx_id && batch::has_tx(
                b@.txs,
                tx_id,
                n,
            );
        let i = choose|i: int| 0 <= i < n && (#[trigger] b@.txs[i]).tx_id == tx_id;
        assert(b@.txs[i].tx_id == tx_id && b@.txs[n].tx_id == tx_id);
    }
}

/// Writes pass if and only if each is to one of the keys; a refusal names one that is not.
pub proof fn lemma_writes_checked_call(
    tx_id: TxId,
    writes: &Vec<WriteOp>,
    expected: &OrdSet<Key>,
    r: Result<()>,
)
    requires
        call_ensures(validate_local_writes, (tx_id, writes, expected), r),
    ensures
        r is Ok <==> forall|i: int|
            0 <= i < writes@.len() ==> expected@.contains((#[trigger] writes@[i])@.target()),
        r matches Err(error) ==> match error {
            Error::InvalidBatch(BatchFault::UnexpectedWrite { tx_id: t, key }) => {
                &&& t == tx_id && !expected@.contains(key@)
                &&& exists|i: int|
                    0 <= i < writes@.len() && (#[trigger] writes@[i])@.target() == key@
            },
            _ => false,
        },
{
    let views = model::write_views(writes@);
    if r is Ok {
        assert(batch::none_stray(views, expected@));
        assert forall|i: int| 0 <= i < writes@.len() implies expected@.contains(
            (#[trigger] writes@[i])@.target(),
        ) by {
            assert(views[i] == writes@[i]@);
            assert(expected@.contains(views[i].target()));
        }
    }
    if let Err(Error::InvalidBatch(BatchFault::UnexpectedWrite { tx_id: t, key })) = r {
        let i = choose|i: int| #[trigger] batch::first_stray(views, expected@, i, key@);
        assert(writes@[i]@.target() == key@);
    }
}

/// Running on a shard answers what the operation answers, and keeps of its writes those to
/// keys of the shard.
pub proof fn lemma_run_on_shard_call(
    tx: &OrderedTx,
    reads: &OrdMap<Key, ReadValue>,
    shard: ShardId,
    layout: &ShardLayout,
    r: Result<Option<LocalOutcome>>,
    checked: Option<TxExecutionOutput>,
    s: State,
    write: WriteOpView,
)
    requires
        layout.wf(),
        call_ensures(run_on_shard, (tx, reads, shard, layout), r),
        call_ensures(execute_checked, (tx, reads), checked),
        operations::reads_from(reads@, s, tx@.op),
    ensures
        r matches Ok(Some(outcome)) ==> {
            let kept = model::write_views(outcome.writes@);
            &&& outcome.result == outcomes::answer(s, tx@.op)
            &&& checked matches Some(output) && output@.result == outcome.result
            &&& kept.contains(write) <==> checked->0@.writes.contains(write) && router::shard_of(
                layout.shard_count,
                write.target(),
            ) == shard
        },
        r matches Ok(None) ==> checked is None,
        checked matches Some(output) ==> output@.result == outcomes::answer(s, tx@.op)
            && state::apply_writes(s, output@.writes) == outcomes::leaves(s, tx@.op),
{
    outcomes::lemma_answer_from_reads(s, tx@.op, reads@);
    if let Ok(Some(outcome)) = r {
        let given = executor::execute(tx@.op, reads@).writes;
        let own = |w: WriteOpView| router::shard_of(layout.shard_count, w.target()) == shard;
        assert(executor::local_writes(given, shard, layout.shard_count) == given.filter(own));
        if given.contains(write) && own(write) {
            let i = choose|i: int| 0 <= i < given.len() && given[i] == write;
            given.lemma_filter_contains(own, i);
        }
        if given.filter(own).contains(write) {
            given.lemma_filter_contains_rev(own, write);
            let i = choose|i: int| 0 <= i < given.filter(own).len() && given.filter(own)[i] == write;
            given.lemma_filter_pred(own, i);
        }
    }
}

/// Sorted records are by transaction, and those of one transaction by shard; there are as
/// many as before, and those of a transaction and shard are the same in the same order.
pub proof fn lemma_sorted_records_call(
    list: &Vec<TxResultRecord>,
    r: Vec<TxResultRecord>,
    i: int,
    j: int,
    tx_id: TxId,
    shard_id: ShardId,
)
    requires
        call_ensures(sort_records, (list,), r),
    ensures
        r@.len() == list@.len(),
        0 <= i < j < r@.len() ==> r@[i].tx_id < r@[j].tx_id || (r@[i].tx_id == r@[j].tx_id
            && r@[i].shard_id <= r@[j].shard_id),
        r@.filter(|x: TxResultRecord| x.tx_id == tx_id && x.shard_id == shard_id) == list@.filter(
            |x: TxResultRecord| x.tx_id == tx_id && x.shard_id == shard_id,
        ),
{
    if 0 <= i < j < r@.len() {
        assert(batch::not_after(r@[i], r@[j]));
    }
    assert(batch::records_of(r@, tx_id, shard_id) == batch::records_of(list@, tx_id, shard_id));
}

/// The slots that failed are those at which it says so.
pub proof fn lemma_failed_call(slots: &Vec<CommitSlotState>, r: OrdSet<usize>, i: usize)
    requires
        call_ensures(failed_indices_from_snapshot, (slots,), r),
    ensures
        r@.contains(i) <==> i < slots@.len() && slots@[i as int]@ == SlotView::Failed,
{
    let views = crate::scc::commit::slot_views(slots@);
    if i < slots@.len() {
        assert(views[i as int] == slots@[i as int]@);
    }
}

/// The order of a batch after failures: those that did not fail first, then those that
/// did, both in batch order. It is refused if one that failed is not in the batch.
pub proof fn lemma_reorder_call(
    batch_id: BatchId,
    len: usize,
    failed: &OrdSet<usize>,
    r: Result<SccReorderRecord>,
    i: usize,
)
    requires
        call_ensures(batch_reorder, (batch_id, len, failed), r),
        failed@.finite(),
    ensures
        r is Ok <==> forall|k: usize| #[trigger] failed@.contains(k) ==> k < len,
        r matches Ok(order) ==> {
            &&& order@.batch_id == batch_id
            &&& order@.successes.contains(i) <==> i < len && !failed@.contains(i)
            &&& order@.fallbacks.contains(i) <==> failed@.contains(i)
            &&& forall|a: int, b: int|
                0 <= a < b < order@.successes.len() ==> order@.successes[a] < order@.successes[b]
            &&& forall|a: int, b: int|
                0 <= a < b < order@.fallbacks.len() ==> order@.fallbacks[a] < order@.fallbacks[b]
        },
{
    let all = indices::all_indices(len as nat);
    if forall|k: usize| #[trigger] failed@.contains(k) ==> k < len {
        assert(failed@.subset_of(all));
    }
    if failed@.subset_of(all) {
        assert forall|k: usize| #[trigger] failed@.contains(k) implies k < len by {
            assert(all.contains(k));
        }
    }
    if let Ok(order) = r {
        crate::laws::orders::lemma_indices_finite(len as nat);
        vstd::set_lib::lemma_set_subset_finite::<usize>(all, all.difference(failed@));
        collections::lemma_sorted_of_finite::<usize>(failed@);
        collections::lemma_sorted_of_finite::<usize>(all.difference(failed@));
        let a = order@.successes;
        let f = order@.fallbacks;
        assert(a.to_set().contains(i) == a.contains(i));
        assert(f.to_set().contains(i) == f.contains(i));
        assert forall|x: int, y: int| 0 <= x < y < a.len() implies a[x] < a[y] by {
            assert(<usize as collections::SortKey>::before(a[x], a[y]));
        }
        assert forall|x: int, y: int| 0 <= x < y < f.len() implies f[x] < f[y] by {
            assert(<usize as collections::SortKey>::before(f[x], f[y]));
        }
    }
}

/// A batch has one order: noting one for it makes it the one that is noted, and to note
/// another is an error. The orders of other batches stay.
pub proof fn lemma_note_order_call(
    noted: &mut OrdMap<BatchId, SccReorderRecord>,
    batch_id: BatchId,
    len: usize,
    failed: &OrdSet<usize>,
    r: Result<()>,
    order: Result<SccReorderRecord>,
    other: BatchId,
)
    requires
        call_ensures(record_batch_reorder, (noted, batch_id, len, failed), r),
        call_ensures(batch_reorder, (batch_id, len, failed), order),
        other != batch_id,
    ensures
        r is Ok <==> order is Ok && !old(noted)@.contains_key(batch_id),
        order is Ok ==> final(noted)@.contains_key(batch_id) && final(noted)@[batch_id]@
            == order->Ok_0@,
        order is Err ==> final(noted)@ == old(noted)@,
        final(noted)@.contains_key(other) <==> old(noted)@.contains_key(other),
        old(noted)@.contains_key(other) ==> final(noted)@[other] == old(noted)@[other],
{
    if order is Ok {
        assert(final(noted)@.dom().contains(other) == old(noted)@.dom().insert(batch_id).contains(
            other,
        ));
        assert(final(noted)@.dom().contains(batch_id));
    }
}

/// The transactions that failed become a batch of their own: each of them once, in batch
/// order, as it was but for its place, which counts from nought.
pub proof fn lemma_fallback_batch_call(
    b: &Batch,
    failed: &OrdSet<usize>,
    r: Batch,
    k: int,
    l: int,
    i: usize,
)
    requires
        call_requires(fallback_batch_from_failed_indices, (b, failed)),
        call_ensures(fallback_batch_from_failed_indices, (b, failed), r),
        failed@.finite(),
    ensures
        r@.batch_id == b@.batch_id,
        r@.txs.len() == failed@.len(),
        0 <= k < l < r@.txs.len() ==> exists|x: usize, y: usize|
            x < y && #[trigger] failed@.contains(x) && #[trigger] failed@.contains(y) && r@.txs[k]
                == (OrderedTxView { batch_index: k as u32, ..b@.txs[x as int] }) && r@.txs[l] == (
            OrderedTxView { batch_index: l as u32, ..b@.txs[y as int] }),
        failed@.contains(i) ==> exists|m: int|
            0 <= m < r@.txs.len() && #[trigger] r@.txs[m] == (OrderedTxView {
                batch_index: m as u32,
                ..b@.txs[i as int]
            }),
{
    let order = collections::sorted::<usize>(failed@);
    collections::lemma_sorted_of_finite::<usize>(failed@);
    assert forall|x: int, y: int| 0 <= x < y < order.len() implies order[x] < order[y] by {
        assert(<usize as collections::SortKey>::before(order[x], order[y]));
    }
    assert(order.no_duplicates());
    order.unique_seq_to_set();
    if 0 <= k < l < r@.txs.len() {
        assert(order.to_set().contains(order[k]) && order.to_set().contains(order[l]));
        assert(failed@.contains(order[k]) && failed@.contains(order[l]));
    }
    if failed@.contains(i) {
        assert(order.to_set().contains(i));
        let m = choose|m: int| 0 <= m < order.len() && order[m] == i;
        assert(r@.txs[m] == (OrderedTxView { batch_index: m as u32, ..b@.txs[i as int] }));
    }
}

/// A transaction with derived sets is the same but for its sets, which are those derived
/// from its operation; so it is of each transaction of the batch of those that failed.
pub proof fn lemma_derived_call(
    tx: &OrderedTx,
    r: Result<OrderedTx>,
    sets: Result<(OrdSet<Key>, OrdSet<Key>)>,
    b: &Batch,
    failed: &OrdSet<usize>,
    plain: Batch,
    again: Result<Batch>,
    k: int,
)
    requires
        call_ensures(tx_with_derived_sets, (tx,), r),
        call_ensures(derive_read_write_set, (&tx.op,), sets),
        call_requires(fallback_batch_from_failed_indices, (b, failed)),
        call_ensures(fallback_batch_from_failed_indices, (b, failed), plain),
        call_ensures(
            fallback_batch_from_failed_indices_with_derived_sets,
            (b, failed),
            again,
        ),
    ensures
        r matches Ok(derived) && derived@.tx_id == tx@.tx_id && derived@.batch_index
            == tx@.batch_index && derived@.op == tx@.op && derived@.read_set == sets->Ok_0.0@
            && derived@.write_set == sets->Ok_0.1@,
        again is Ok,
        again->Ok_0@.batch_id == plain@.batch_id,
        again->Ok_0@.txs.len() == plain@.txs.len(),
        0 <= k < plain@.txs.len() ==> {
            let one = again->Ok_0@.txs[k];
            let other = plain@.txs[k];
            &&& one.tx_id == other.tx_id && one.batch_index == other.batch_index
            &&& one.op == other.op
            &&& one.read_set == executor::read_keys(other.op)
            &&& one.write_set == executor::write_keys(other.op)
        },
{
}

/// What is installed of one slot more: nothing of one that failed or did nothing, and all
/// changes of any other; while one is pending, or failed without being listed, nothing can
/// be installed.
pub proof fn lemma_install_step(
    s: State,
    slots: Seq<SlotView>,
    failed: Set<usize>,
    n: int,
    t: State,
)
    requires
        0 <= n < slots.len(),
        slots.len() <= usize::MAX,
        reorder::installed(s, slots, failed, n) == Some(t),
    ensures
        reorder::installed(s, slots, failed, 0) == Some(s),
        failed.contains(n as usize) ==> reorder::installed(s, slots, failed, n + 1) == Some(t),
        !failed.contains(n as usize) ==> reorder::installed(s, slots, failed, n + 1)
            == match slots[n] {
            SlotView::NoOp => Some(t),
            SlotView::Delta(ops) => delta::apply_delta(t, ops),
            _ => None,
        },
{
}

/// Installing succeeds only where every slot is one that is listed as failed, did nothing,
/// or fits; what is stored then is what installing leaves.
pub proof fn lemma_install_call(
    store: &mut RedbInMemoryInodeStore,
    slots: &Vec<CommitSlotState>,
    failed: &OrdSet<usize>,
    r: Result<()>,
    i: int,
)
    requires
        old(store).wf(),
        call_ensures(install_scc_successes, (store, slots, failed), r),
        r is Ok,
        0 <= i < slots@.len(),
    ensures
        reorder::installed(
            old(store)@,
            slots@.map_values(|s: CommitSlotState| s@),
            failed@,
            slots@.len() as int,
        ) == Some(final(store)@),
        !failed@.contains(i as usize) ==> slots@[i]@ is NoOp || slots@[i]@ is Delta,
{
    let views = crate::scc::commit::slot_views(slots@);
    assert(views =~= slots@.map_values(|s: CommitSlotState| s@));
    lemma_installed_all(old(store)@, views, failed@, slots@.len() as int, i);
    assert(views[i] == slots@[i]@);
}

proof fn lemma_installed_all(s: State, slots: Seq<SlotView>, failed: Set<usize>, n: int, i: int)
    requires
        0 <= i < n <= slots.len(),
        reorder::installed(s, slots, failed, n) is Some,
    ensures
        !failed.contains(i as usize) ==> slots[i] is NoOp || slots[i] is Delta,
    decreases n,
{
    if i < n - 1 {
        lemma_installed_all(s, slots, failed, n - 1, i);
    }
}

} // verus!
