//! Calls of a batch that speculates: what it begins with, who is told, and what it comes
//! to.

use crate::collections;
use crate::collections::{OrdMap, OrdSet};
use crate::engine::batch;
use crate::engine::batch::BatchExecutionSummary;
use crate::engine::reorder;
use crate::engine::scc_batch;
use crate::engine::scc_batch::{SccBatch, SccConclusion, SccSettled};
use crate::engine::scc_worker::SccWorker;
use crate::error::Result;
use crate::executor;
use crate::laws::conflicts;
use crate::model::{Batch, BatchId, Key, SccReorderRecord, ShardId, TxResultRecord};
use crate::path::Path;
use crate::router;
use crate::router::ShardLayout;
use crate::scc::commit::{CommitSlotState, SlotView};
use crate::scc::dag::{DagView, SccReady};
use crate::scc::plan;
use crate::storage::RedbInMemoryInodeStore;
use vstd::prelude::*;

verus! {

/// A batch that begins has an edge from one transaction to another if and only if it is
/// the earlier one and the two are to be kept in order; every slot is pending, and nothing
/// is known of any result.
pub proof fn lemma_speculation_begins_call(
    b: Batch,
    layout: ShardLayout,
    shard: ShardId,
    r: Result<SccBatch>,
    i: int,
    j: int,
)
    requires
        layout.wf(),
        call_ensures(SccBatch::begin, (b, layout, shard), r),
        r is Ok,
        0 <= i < b@.txs.len() <= usize::MAX,
        0 <= j < b@.txs.len(),
        forall|k: int| 0 <= k < b@.txs.len() ==> (#[trigger] b@.txs[k]).op.valid(),
    ensures
        ({
            let v = r->Ok_0@;
            &&& v.batch == b@ && v.shard_id == shard && v.shard_count == layout.shard_count
            &&& v.effect.successors[i].contains(j as usize) <==> i < j && conflicts::in_the_way(
                b@.txs[i].op,
                b@.txs[j].op,
            )
            &&& v.condition.successors[i].contains(j as usize) <==> i < j && conflicts::in_the_way(
                b@.txs[i].op,
                b@.txs[j].op,
            )
            &&& v.slots.len() == b@.txs.len() && v.slots[i] is Pending
            &&& !v.effect.finished[i] && !v.effect.notified[i]
            &&& !v.records.contains_key(i as usize)
        }),
{
    conflicts::lemma_conflicts(b@.txs[i].op, b@.txs[j].op);
    let v = r->Ok_0@;
    assert(v.effect.successors[i].contains(j as usize) <==> plan::depends(b@.txs, i, j));
    assert(v.condition.successors[i].contains(j as usize) <==> plan::depends(b@.txs, i, j));
}

/// A shard answers for a transaction if it has the lowest number of those that run it; one
/// whose sets are not those of its operation is refused.
pub proof fn lemma_responsible_call(
    run: &SccBatch,
    index: usize,
    r: Result<bool>,
    other: ShardId,
)
    requires
        run.wf(),
        index < run@.batch.txs.len(),
        call_ensures(SccBatch::responsible, (run, index), r),
    ensures
        ({
            let tx = run@.batch.txs[index as int];
            let runs = router::participants_of(
                run@.shard_count,
                tx.read_set,
                tx.write_set,
            ).active;
            &&& r is Ok <==> tx.read_set == executor::read_keys(tx.op) && tx.write_set
                == executor::write_keys(tx.op)
            &&& r matches Ok(true) ==> runs.contains(run@.shard_id) && (runs.contains(other)
                ==> run@.shard_id <= other)
            &&& r matches Ok(false) ==> !runs.contains(run@.shard_id) || exists|s: ShardId| #[trigger]
                runs.contains(s) && s < run@.shard_id
        }),
{
}

/// What the batch reads here are the keys here that one of its transactions reads; there
/// is a worker for a transaction if and only if it reads or writes a key here.
pub proof fn lemma_keys_here_call(
    run: &SccBatch,
    keys: OrdSet<Key>,
    index: usize,
    r: Option<SccWorker>,
    key: Path,
)
    requires
        run.wf(),
        call_ensures(SccBatch::base_keys, (run,), keys),
        index < run@.batch.txs.len(),
        call_ensures(SccBatch::worker, (run, index), r),
    ensures
        ({
            let v = run@;
            let tx = v.batch.txs[index as int];
            let here = router::shard_of(v.shard_count, key) == v.shard_id;
            &&& here && tx.read_set.contains(key) ==> keys@.contains(key)
            &&& keys@.contains(key) ==> here && exists|i: int|
                0 <= i < v.batch.txs.len() && (#[trigger] v.batch.txs[i]).read_set.contains(key)
            &&& here && (tx.read_set.contains(key) || tx.write_set.contains(key)) ==> r is Some
            &&& r matches Some(w) ==> {
                &&& w.tx@ == tx && w.batch_id == v.batch.batch_id && w.shard_id == v.shard_id
                &&& w.local_read_keys@.contains(key) <==> here && tx.read_set.contains(key)
                &&& w.local_write_keys@.contains(key) <==> here && tx.write_set.contains(key)
                &&& w.participants@ == router::participants_of(
                    v.shard_count,
                    tx.read_set,
                    tx.write_set,
                )
            }
        }),
{
    let v = run@;
    let i = index as int;
    assert(v.local_reads(i).contains(key) <==> v.batch.txs[i].read_set.contains(key)
        && router::shard_of(v.shard_count, key) == v.shard_id);
    assert(v.local_writes(i).contains(key) <==> v.batch.txs[i].write_set.contains(key)
        && router::shard_of(v.shard_count, key) == v.shard_id);
    if keys@.contains(key) {
        let k = choose|k: int|
            0 <= k < v.batch.txs.len() && (#[trigger] v.local_reads(k)).contains(key);
        assert(v.batch.txs[k].read_set.contains(key));
    }
}

/// A transaction ends once: its slot is then what it ended with, it is done in both
/// graphs, its record is kept, and no other slot or record changes. Those are told to go
/// on who waited for it and now wait for nobody.
pub proof fn lemma_end_call(
    run: &mut SccBatch,
    index: usize,
    slot: CommitSlotState,
    record: Option<TxResultRecord>,
    r: Result<SccReady>,
    other: int,
    j: usize,
)
    requires
        old(run).wf(),
        call_ensures(SccBatch::on_end, (run, index, slot, record), r),
        0 <= other < old(run)@.slots.len(),
        other != index,
    ensures
        ({
            let v = old(run)@;
            let w = final(run)@;
            &&& r is Ok <==> !(slot@ is Pending) && index < v.slots.len()
                && v.slots[index as int] is Pending
            &&& r is Err ==> w == v
            &&& r is Ok ==> {
                &&& w.slots.len() == v.slots.len()
                &&& w.slots[index as int] == slot@
                &&& w.slots[other] == v.slots[other]
                &&& w.effect.finished == v.effect.finished.update(index as int, true)
                &&& w.condition.finished == v.condition.finished.update(index as int, true)
                &&& record is Some ==> w.records.contains_key(index) && w.records[index]
                    == record->0
                &&& record is None ==> w.records == v.records
                &&& j != index ==> (w.records.contains_key(j) <==> v.records.contains_key(j))
                &&& r->Ok_0.effect@.contains(j) ==> v.effect.successors[index as int].contains(j)
                &&& r->Ok_0.condition@.contains(j) ==> v.condition.successors[index as int].contains(
                    j,
                )
            }
        }),
{
    if let Ok(told) = r {
        assert(told.effect@.contains(j) == told.effect@.to_set().contains(j));
        assert(told.condition@.contains(j) == told.condition@.to_set().contains(j));
    }
}

proof fn lemma_standing(
    list: Map<usize, TxResultRecord>,
    places: Seq<usize>,
    failed: Set<usize>,
    record: TxResultRecord,
)
    ensures
        scc_batch::standing(list, places, failed).contains(record) <==> exists|k: int|
            0 <= k < places.len() && !failed.contains(#[trigger] places[k]) && list[places[k]]
                == record,
    decreases places.len(),
{
    let all = scc_batch::standing(list, places, failed);
    if places.len() > 0 {
        let front = places.drop_last();
        let before = scc_batch::standing(list, front, failed);
        lemma_standing(list, front, failed, record);
        if all.contains(record) {
            let m = choose|m: int| 0 <= m < all.len() && all[m] == record;
            if m < before.len() {
                assert(before[m] == record);
                let k = choose|k: int|
                    0 <= k < front.len() && !failed.contains(#[trigger] front[k]) && list[front[k]]
                        == record;
                assert(places[k] == front[k]);
            } else {
                assert(places[places.len() - 1] == places.last());
            }
        }
        if exists|k: int|
            0 <= k < places.len() && !failed.contains(#[trigger] places[k]) && list[places[k]]
                == record {
            let k = choose|k: int|
                0 <= k < places.len() && !failed.contains(#[trigger] places[k]) && list[places[k]]
                    == record;
            if k < front.len() {
                assert(front[k] == places[k]);
                let m = choose|m: int| 0 <= m < before.len() && before[m] == record;
                assert(all[m] == record);
            } else {
                assert(all[all.len() - 1] == record);
            }
        }
    }
}

/// What a batch came to: those failed whose slots say so, and the results are the records
/// of all that did not, and no others.
pub proof fn lemma_conclusion_call(
    run: &SccBatch,
    r: SccConclusion,
    i: usize,
    record: TxResultRecord,
)
    requires
        call_ensures(SccBatch::conclude, (run,), r),
        run@.records.dom().finite(),
    ensures
        r.failed_indices@.contains(i) <==> i < run@.slots.len() && run@.slots[i as int] is Failed,
        r.results@.contains(record) <==> exists|k: usize| #[trigger]
            run@.records.contains_key(k) && run@.records[k] == record && !(k < run@.slots.len()
                && run@.slots[k as int] is Failed),
        r.snapshot@.len() == run@.slots.len(),
        i < run@.slots.len() ==> r.snapshot@[i as int]@ == run@.slots[i as int],
{
    let failed = reorder::failed_slots(run@.slots);
    let places = collections::sorted::<usize>(run@.records.dom());
    collections::lemma_sorted_of_finite::<usize>(run@.records.dom());
    lemma_standing(run@.records, places, failed, record);
    if r.results@.contains(record) {
        let k = choose|k: int|
            0 <= k < places.len() && !failed.contains(#[trigger] places[k])
                && run@.records[places[k]] == record;
        assert(places.to_set().contains(places[k]));
        assert(run@.records.contains_key(places[k]));
    }
    if exists|k: usize| #[trigger]
        run@.records.contains_key(k) && run@.records[k] == record && !(k < run@.slots.len()
            && run@.slots[k as int] is Failed) {
        let k = choose|k: usize| #[trigger]
            run@.records.contains_key(k) && run@.records[k] == record && !(k < run@.slots.len()
                && run@.slots[k as int] is Failed);
        assert(places.to_set().contains(k));
        let m = choose|m: int| 0 <= m < places.len() && places[m] == k;
        assert(!failed.contains(places[m]));
    }
    let views = crate::scc::commit::slot_views(r.snapshot@);
    assert(views.len() == r.snapshot@.len());
    if i < run@.slots.len() {
        assert(views[i as int] == r.snapshot@[i as int]@);
    }
}

/// A batch that is settled is run again where someone failed, and only there: each of
/// those that failed once, in batch order. Its order is noted, with those that failed
/// last.
pub proof fn lemma_settled_call(
    run: &SccBatch,
    orders: &mut OrdMap<BatchId, SccReorderRecord>,
    store: &mut RedbInMemoryInodeStore,
    r: Result<SccSettled>,
    i: usize,
)
    requires
        old(store).wf(),
        call_ensures(SccBatch::settle, (run, orders, store), r),
        r is Ok,
        r->Ok_0.failed_indices@.finite(),
    ensures
        ({
            let settled = r->Ok_0;
            let fell = i < run@.slots.len() && run@.slots[i as int] is Failed;
            let id = run@.batch.batch_id;
            &&& settled.failed_indices@.contains(i) <==> fell
            &&& settled.again matches Some(again) ==> again@.batch_id == id && exists|k: usize|
                k < run@.slots.len() && #[trigger] settled.failed_indices@.contains(k)
            &&& fell ==> settled.again is Some && exists|m: int|
                0 <= m < settled.again->0@.txs.len() && (#[trigger] settled.again->0@.txs[m]).tx_id
                    == run@.batch.txs[i as int].tx_id && settled.again->0@.txs[m].op
                    == run@.batch.txs[i as int].op && settled.again->0@.txs[m].batch_index
                    == m as u32
            &&& final(orders)@.contains_key(id) && !old(orders)@.contains_key(id)
            &&& final(orders)@[id]@.fallbacks == collections::sorted::<usize>(
                settled.failed_indices@,
            )
        }),
{
    let id = run@.batch.batch_id;
    assert(final(orders)@.dom().contains(id));
    let failed = reorder::failed_slots(run@.slots);
    if i < run@.slots.len() && run@.slots[i as int] is Failed {
        assert(failed.contains(i));
        let order = collections::sorted::<usize>(failed);
        collections::lemma_sorted_of_finite::<usize>(failed);
        assert(order.to_set().contains(i));
        let m = choose|m: int| 0 <= m < order.len() && order[m] == i;
        assert(r->Ok_0.again->0@.txs[m].tx_id == run@.batch.txs[i as int].tx_id);
    }
    if r->Ok_0.again is Some {
        if forall|k: usize| !failed.contains(k) {
            assert(failed =~= Set::<usize>::empty());
        }
        let k = choose|k: usize| failed.contains(k);
        assert(r->Ok_0.failed_indices@.contains(k));
    }
}

/// The report of a batch holds the results of both runs, by transaction and shard.
pub proof fn lemma_scc_finish_call(
    run: &SccBatch,
    results: Vec<TxResultRecord>,
    again: Vec<TxResultRecord>,
    r: BatchExecutionSummary,
    i: int,
    j: int,
)
    requires
        call_ensures(SccBatch::finish, (run, results, again), r),
    ensures
        r.batch_id == run@.batch.batch_id && r.shard_id == run@.shard_id,
        r.tx_results@.len() == results@.len() + again@.len(),
        0 <= i < j < r.tx_results@.len() ==> r.tx_results@[i].tx_id < r.tx_results@[j].tx_id || (
        r.tx_results@[i].tx_id == r.tx_results@[j].tx_id && r.tx_results@[i].shard_id
            <= r.tx_results@[j].shard_id),
{
    if 0 <= i < j < r.tx_results@.len() {
        assert(batch::not_after(r.tx_results@[i], r.tx_results@[j]));
    }
}

/// At the start of a batch that speculates those are told to go on who wait for nobody and
/// were not told before, of effects and of conditions each for itself, in their order.
pub proof fn lemma_scc_start_call(run: &mut SccBatch, r: Result<SccReady>, j: usize)
    requires
        old(run).wf(),
        call_ensures(SccBatch::start, (run,), r),
    ensures
        r is Ok,
        ({
            let told = r->Ok_0;
            let e = old(run)@.effect;
            let c = old(run)@.condition;
            &&& told.effect@.contains(j) <==> j < e.notified.len() && !e.notified[j as int]
                && forall|i: int|
                0 <= i < e.successors.len() && #[trigger] e.successors[i].contains(j)
                    ==> e.finished[i]
            &&& told.condition@.contains(j) <==> j < c.notified.len() && !c.notified[j as int]
                && forall|i: int|
                0 <= i < c.successors.len() && #[trigger] c.successors[i].contains(j)
                    ==> c.finished[i]
            &&& forall|a: int, b: int|
                0 <= a < b < told.effect@.len() ==> told.effect@[a] < told.effect@[b]
            &&& forall|a: int, b: int|
                0 <= a < b < told.condition@.len() ==> told.condition@[a] < told.condition@[b]
            &&& final(run)@.slots == old(run)@.slots
        }),
{
    let told = r->Ok_0;
    let e = old(run)@.effect;
    let c = old(run)@.condition;
    assert(told.effect@.contains(j) == told.effect@.to_set().contains(j));
    assert(told.condition@.contains(j) == told.condition@.to_set().contains(j));
    lemma_ready_when_unblocked(e, j);
    lemma_ready_when_unblocked(c, j);
    assert forall|a: int, b: int| 0 <= a < b < told.effect@.len() implies told.effect@[a]
        < told.effect@[b] by {
        assert(<usize as collections::SortKey>::before(told.effect@[a], told.effect@[b]));
    }
    assert forall|a: int, b: int| 0 <= a < b < told.condition@.len() implies told.condition@[a]
        < told.condition@[b] by {
        assert(<usize as collections::SortKey>::before(told.condition@[a], told.condition@[b]));
    }
}

proof fn lemma_ready_when_unblocked(v: DagView, j: usize)
    ensures
        v.ready(j as int) <==> forall|i: int|
            0 <= i < v.successors.len() && #[trigger] v.successors[i].contains(j) ==> v.finished[i],
{
    if v.ready(j as int) {
        assert forall|i: int|
            0 <= i < v.successors.len() && #[trigger] v.successors[i].contains(
                j,
            ) implies v.finished[i] by {
            assert(v.successors[i].contains(j as int as usize));
        }
    }
    if forall|i: int|
        0 <= i < v.successors.len() && #[trigger] v.successors[i].contains(j) ==> v.finished[i] {
        assert forall|i: int|
            0 <= i < v.successors.len() && #[trigger] v.successors[i].contains(
                j as int as usize,
            ) implies v.finished[i] by {
            assert(v.successors[i].contains(j));
        }
    }
}

/// A transaction that has nothing to do here ends in its slot as one that did nothing, once,
/// and leaves every other slot as it was.
pub proof fn lemma_idle_call(
    run: &mut SccBatch,
    index: usize,
    r: Result<SccReady>,
    other: int,
)
    requires
        old(run).wf(),
        call_ensures(SccBatch::finish_idle, (run, index), r),
        0 <= other < old(run)@.slots.len(),
        other != index,
    ensures
        r is Ok <==> index < old(run)@.slots.len() && old(run)@.slots[index as int]
            == SlotView::Pending,
        r is Ok ==> final(run)@.slots[index as int] == SlotView::NoOp,
        r is Ok ==> final(run)@.slots[other] == old(run)@.slots[other],
        r is Ok ==> final(run)@.effect.finished == old(run)@.effect.finished.update(
            index as int,
            true,
        ) && final(run)@.condition.finished == old(run)@.condition.finished.update(
            index as int,
            true,
        ),
        r is Err ==> final(run)@ == old(run)@,
{
}

} // verus!
