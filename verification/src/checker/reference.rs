//! Running batches one transaction after the other.

use crate::collections;
use crate::collections::{OrdMap, OrdSet};
use crate::error::{CheckerFault, Error, Result};
use crate::executor;
use crate::executor::execute_deterministic;
use crate::model;
use crate::model::{
    Batch, BatchId, BatchView, Inode, Key, OrderedTx, OrderedTxView, ReorderView, SccReorderRecord,
};
use crate::serial;
use crate::state;
use vstd::prelude::*;

verus! {

/// The views of `batches`.
pub open spec fn batch_views(batches: Seq<Batch>) -> Seq<BatchView> {
    batches.map_values(|b: Batch| b@)
}

/// Runs `tx` on `state`.
fn apply_reference_tx(state: &mut OrdMap<Key, Inode>, tx: &OrderedTx)
    requires
        !executor::overflows(tx@.op, state::reads_of(old(state)@, tx@.read_set)),
    ensures
        final(state)@ == serial::run_tx(old(state)@, tx@),
{
    let reads = state::read_keys(state, &tx.read_set);
    let output = execute_deterministic(tx, &reads);
    state::apply_write_ops(state, &output.writes);
}

/// Runs `txs` on `state`, in order.
fn apply_reference_txs(state: &mut OrdMap<Key, Inode>, txs: &Vec<OrderedTx>)
    requires
        serial::fits(old(state)@, model::tx_views(txs@)),
    ensures
        final(state)@ == serial::run_txs(old(state)@, model::tx_views(txs@)),
{
    let ghost views = model::tx_views(txs@);
    let mut i: usize = 0;
    while i < txs.len()
        invariant
            i <= txs.len(),
            views == model::tx_views(txs@),
            serial::fits(old(state)@, views),
            state@ == serial::run_txs(old(state)@, views.take(i as int)),
        decreases txs.len() - i,
    {
        assert(views[i as int] == txs@[i as int]@);
        apply_reference_tx(state, &txs[i]);
        i += 1;
        proof {
            assert(views.take(i as int).drop_last() =~= views.take(i - 1));
            assert(views.take(i as int).last() == views[i - 1]);
        }
    }
    assert(views.take(i as int) =~= views);
}

/// The state after `batches` ran one transaction after the other, from nothing.
pub fn reference_execute_batches(batches: &[Batch]) -> (r: OrdMap<Key, Inode>)
    requires
        serial::fits(Map::empty(), serial::all_txs(batch_views(batches@))),
    ensures
        r@ == serial::run_txs(Map::empty(), serial::all_txs(batch_views(batches@))),
{
    let ghost views = batch_views(batches@);
    let mut state: OrdMap<Key, Inode> = OrdMap::new();
    let mut i: usize = 0;
    while i < batches.len()
        invariant
            i <= batches.len(),
            views == batch_views(batches@),
            serial::fits(Map::empty(), serial::all_txs(views)),
            state@ == serial::run_txs(Map::empty(), serial::all_txs(views.take(i as int))),
        decreases batches.len() - i,
    {
        proof {
            let next = views.take(i + 1);
            assert(next.drop_last() =~= views.take(i as int));
            assert(next.last() == views[i as int]);
            assert(views[i as int].txs == model::tx_views(batches@[i as int].txs@));
            lemma_all_txs_prefix(views, i + 1);
            let rest = choose|rest: Seq<OrderedTxView>|
                serial::all_txs(views) == serial::all_txs(next) + rest;
            serial::lemma_fits_concat(Map::empty(), serial::all_txs(next), rest);
            serial::lemma_fits_concat(
                Map::empty(),
                serial::all_txs(views.take(i as int)),
                views[i as int].txs,
            );
            serial::lemma_run_concat(
                Map::empty(),
                serial::all_txs(views.take(i as int)),
                views[i as int].txs,
            );
        }
        apply_reference_txs(&mut state, &batches[i].txs);
        i += 1;
    }
    assert(views.take(i as int) =~= views);
    state
}

/// The transactions of the first batches come first.
pub proof fn lemma_all_txs_prefix(batches: Seq<BatchView>, n: int)
    requires
        0 <= n <= batches.len(),
    ensures
        exists|rest: Seq<OrderedTxView>|
            serial::all_txs(batches) == serial::all_txs(batches.take(n)) + rest,
    decreases batches.len(),
{
    if n == batches.len() {
        assert(batches.take(n) =~= batches);
        assert(serial::all_txs(batches) =~= serial::all_txs(batches.take(n)) + Seq::empty());
    } else {
        lemma_all_txs_prefix(batches.drop_last(), n);
        assert(batches.drop_last().take(n) =~= batches.take(n));
        let rest = choose|rest: Seq<OrderedTxView>|
            serial::all_txs(batches.drop_last()) == serial::all_txs(batches.take(n)) + rest;
        assert(serial::all_txs(batches) =~= serial::all_txs(batches.take(n)) + (rest
            + batches.last().txs));
    }
}

/// The order in which a batch took effect.
pub open spec fn order_of(record: ReorderView) -> Seq<usize> {
    record.successes + record.fallbacks
}

/// The first `n` positions of `order` name different transactions of a batch of
/// `len`.
pub open spec fn sound_order(order: Seq<usize>, len: int, n: int) -> bool {
    &&& forall|p: int| 0 <= p < n ==> #[trigger] order[p] < len
    &&& forall|p: int, q: int| 0 <= p < q < n ==> #[trigger] order[p] != #[trigger] order[q]
}

/// The record gives each transaction of the batch its place, once.
pub open spec fn valid_record(batch: BatchView, record: ReorderView) -> bool {
    let order = order_of(record);
    &&& record.batch_id == batch.batch_id
    &&& sound_order(order, batch.txs.len() as int, order.len() as int)
    &&& forall|i: usize| i < batch.txs.len() ==> #[trigger] order.contains(i)
}

/// Why a record does not fit its batch: the first reason there is.
pub open spec fn record_fault(batch: BatchView, record: ReorderView, fault: CheckerFault) -> bool {
    let order = order_of(record);
    let len = batch.txs.len();
    match fault {
        CheckerFault::ReorderBatchMismatch { record: r, batch: b } => {
            record.batch_id != batch.batch_id && r == record.batch_id && b == batch.batch_id
        },
        CheckerFault::ReorderOutOfRange { batch_id, index, len: l } => {
            &&& record.batch_id == batch.batch_id
            &&& batch_id == batch.batch_id && l == len
            &&& exists|p: int|
                0 <= p < order.len() && #[trigger] order[p] == index && index >= len
                    && sound_order(order, len as int, p)
        },
        CheckerFault::ReorderDuplicate { batch_id, index } => {
            &&& record.batch_id == batch.batch_id
            &&& batch_id == batch.batch_id
            &&& exists|p: int|
                0 <= p < order.len() && #[trigger] order[p] == index && index < len
                    && order.take(p).contains(index) && sound_order(order, len as int, p)
        },
        CheckerFault::ReorderIncomplete { batch_id, len: l, seen } => {
            &&& record.batch_id == batch.batch_id
            &&& batch_id == batch.batch_id && l == len
            &&& sound_order(order, len as int, order.len() as int)
            &&& seen@ == order.to_set()
            &&& exists|i: usize| i < len && !(#[trigger] order.contains(i))
        },
        _ => false,
    }
}

/// Takes the places that `indices` give after those of `before`, up to the first
/// that is no place or already taken.
fn take_places(
    batch_id: BatchId,
    batch_len: usize,
    Ghost(before): Ghost<Seq<usize>>,
    indices: &Vec<usize>,
    seen: &mut OrdSet<usize>,
) -> (r: Result<()>)
    requires
        sound_order(before, batch_len as int, before.len() as int),
        old(seen)@ == before.to_set(),
    ensures
        ({
            let order = before + indices@;
            match r {
                Ok(_) => {
                    &&& sound_order(order, batch_len as int, order.len() as int)
                    &&& final(seen)@ == order.to_set()
                },
                Err(Error::Checker(CheckerFault::ReorderOutOfRange { batch_id: b, index, len })) => {
                    &&& b == batch_id && len == batch_len
                    &&& exists|p: int|
                        before.len() <= p < order.len() && #[trigger] order[p] == index && index
                            >= batch_len && sound_order(order, batch_len as int, p)
                },
                Err(Error::Checker(CheckerFault::ReorderDuplicate { batch_id: b, index })) => {
                    &&& b == batch_id
                    &&& exists|p: int|
                        before.len() <= p < order.len() && #[trigger] order[p] == index && index
                            < batch_len && order.take(p).contains(index) && sound_order(
                            order,
                            batch_len as int,
                            p,
                        )
                },
                Err(_) => false,
            }
        }),
{
    let ghost order = before + indices@;
    let mut i: usize = 0;
    assert(order.take(before.len() as int) =~= before);
    proof {
        assert forall|p: int| 0 <= p < before.len() implies #[trigger] order[p] == before[p] by {}
    }
    while i < indices.len()
        invariant
            i <= indices.len(),
            order == before + indices@,
            seen@ == order.take(before.len() + i).to_set(),
            sound_order(order, batch_len as int, before.len() + i),
        decreases indices.len() - i,
    {
        let index = indices[i];
        let ghost p = before.len() + i;
        assert(order[p] == index);
        if index >= batch_len {
            return Err(
                Error::Checker(
                    CheckerFault::ReorderOutOfRange { batch_id, index, len: batch_len },
                ),
            );
        }
        let added = seen.insert(index);
        if !added {
            assert(order.take(p).to_set().contains(index));
            assert(order.take(p).contains(index));
            return Err(Error::Checker(CheckerFault::ReorderDuplicate { batch_id, index }));
        }
        proof {
            collections::lemma_take_to_set(order, p);
            assert forall|a: int, b: int| 0 <= a < b < p + 1 implies #[trigger] order[a]
                != #[trigger] order[b] by {
                if b == p {
                    assert(order.take(p)[a] == order[a]);
                    assert(order.take(p).contains(order[a]));
                }
            }
        }
        i += 1;
    }
    assert(order.take(before.len() + i) =~= order);
    Ok(())
}

/// Checks that `reorder` gives each transaction of `batch` its place, once.
pub(crate) fn validate_reorder_record(batch: &Batch, reorder: &SccReorderRecord) -> (r: Result<()>)
    ensures
        match r {
            Ok(_) => valid_record(batch@, reorder@),
            Err(Error::Checker(fault)) => {
                record_fault(batch@, reorder@, fault) && !valid_record(batch@, reorder@)
            },
            Err(_) => false,
        },
{
    if reorder.batch_id != batch.batch_id {
        return Err(
            Error::Checker(
                CheckerFault::ReorderBatchMismatch {
                    record: reorder.batch_id,
                    batch: batch.batch_id,
                },
            ),
        );
    }
    let batch_len = batch.txs.len();
    let ghost order = order_of(reorder@);
    let ghost successes = reorder.speculative_success_indices@;
    let mut seen: OrdSet<usize> = OrdSet::new();
    assert(Seq::<usize>::empty().to_set() =~= Set::<usize>::empty());
    assert(Seq::<usize>::empty() + successes =~= successes);
    match take_places(
        batch.batch_id,
        batch_len,
        Ghost(Seq::empty()),
        &reorder.speculative_success_indices,
        &mut seen,
    ) {
        Ok(_) => {},
        Err(error) => {
            proof {
                assert forall|p: int| 0 <= p < successes.len() implies #[trigger] successes[p]
                    == order[p] by {}
                assert forall|p: int| 0 <= p <= successes.len() implies #[trigger] successes.take(p)
                    == order.take(p) by {
                    assert(successes.take(p) =~= order.take(p));
                }
                lemma_sound_prefix(successes, reorder.fallback_indices@, batch_len as int);
                lemma_fault_is_fault(batch@, reorder@, error->Checker_0);
            }
            return Err(error);
        },
    }
    match take_places(
        batch.batch_id,
        batch_len,
        Ghost(successes),
        &reorder.fallback_indices,
        &mut seen,
    ) {
        Ok(_) => {},
        Err(error) => {
            proof {
                lemma_fault_is_fault(batch@, reorder@, error->Checker_0);
            }
            return Err(error);
        },
    }
    let mut i: usize = 0;
    while i < batch_len
        invariant
            i <= batch_len,
            order == order_of(reorder@),
            batch_len == batch@.txs.len(),
            reorder.batch_id == batch.batch_id,
            seen@ == order.to_set(),
            sound_order(order, batch_len as int, order.len() as int),
            forall|j: usize| j < i ==> #[trigger] order.contains(j),
        decreases batch_len - i,
    {
        if !seen.contains(&i) {
            assert(!order.to_set().contains(i));
            assert(!order.contains(i));
            return Err(
                Error::Checker(
                    CheckerFault::ReorderIncomplete {
                        batch_id: batch.batch_id,
                        len: batch_len,
                        seen,
                    },
                ),
            );
        }
        assert(order.to_set().contains(i));
        i += 1;
    }
    Ok(())
}

/// A prefix of an order is sound as far as the order is.
proof fn lemma_sound_prefix(a: Seq<usize>, b: Seq<usize>, len: int)
    ensures
        forall|p: int| #![trigger sound_order(a, len, p)]
            0 <= p <= a.len() && sound_order(a, len, p) ==> sound_order(a + b, len, p),
{
    assert forall|p: int| #![trigger sound_order(a, len, p)]
        0 <= p <= a.len() && sound_order(a, len, p) implies sound_order(a + b, len, p) by {
        assert forall|q: int| 0 <= q < p implies #[trigger] (a + b)[q] < len by {
            assert((a + b)[q] == a[q]);
        }
        assert forall|q: int, s: int| 0 <= q < s < p implies #[trigger] (a + b)[q]
            != #[trigger] (a + b)[s] by {
            assert((a + b)[q] == a[q] && (a + b)[s] == a[s]);
        }
    }
}

/// A record with a place out of range or taken twice is not valid.
proof fn lemma_fault_is_fault(batch: BatchView, record: ReorderView, fault: CheckerFault)
    requires
        record_fault(batch, record, fault),
    ensures
        !valid_record(batch, record),
{
    let order = order_of(record);
    let len = batch.txs.len();
    match fault {
        CheckerFault::ReorderOutOfRange { index, .. } => {
            let p = choose|p: int|
                0 <= p < order.len() && #[trigger] order[p] == index && index >= len && sound_order(
                    order,
                    len as int,
                    p,
                );
            assert(order[p] >= len);
        },
        CheckerFault::ReorderDuplicate { index, .. } => {
            let p = choose|p: int|
                0 <= p < order.len() && #[trigger] order[p] == index && index < len && order.take(
                    p,
                ).contains(index) && sound_order(order, len as int, p);
            let early = order.take(p);
            let q = choose|q: int| 0 <= q < early.len() && early[q] == index;
            assert(order[q] == order[p]);
        },
        _ => {},
    }
}

/// The transactions of `batch` in the order that `record` gives.
pub open spec fn reordered(batch: BatchView, record: ReorderView) -> BatchView {
    BatchView {
        batch_id: batch.batch_id,
        txs: Seq::new(order_of(record).len(), |p: int| batch.txs[order_of(record)[p] as int]),
    }
}

/// The record that `reorders` holds for `batch` is there and fits.
pub open spec fn has_order(batch: BatchView, reorders: Map<BatchId, SccReorderRecord>) -> bool {
    reorders.contains_key(batch.batch_id) && valid_record(batch, reorders[batch.batch_id]@)
}

/// All of `batches`, each in the order that `reorders` gives.
pub open spec fn reordered_batches(
    batches: Seq<BatchView>,
    reorders: Map<BatchId, SccReorderRecord>,
) -> Seq<BatchView> {
    batches.map_values(|b: BatchView| reordered(b, reorders[b.batch_id]@))
}

/// The first `n` of `batches` have an order.
pub open spec fn runs_reordered(
    batches: Seq<BatchView>,
    reorders: Map<BatchId, SccReorderRecord>,
    n: int,
) -> bool {
    forall|i: int| 0 <= i < n ==> has_order(#[trigger] batches[i], reorders)
}

/// Runs the transactions of `batch` on `state` in the order of `record`.
fn apply_reordered(state: &mut OrdMap<Key, Inode>, batch: &Batch, record: &SccReorderRecord)
    requires
        valid_record(batch@, record@),
        serial::fits(old(state)@, reordered(batch@, record@).txs),
    ensures
        final(state)@ == serial::run_txs(old(state)@, reordered(batch@, record@).txs),
{
    let ghost txs = reordered(batch@, record@).txs;
    let ghost order = order_of(record@);
    let first = record.speculative_success_indices.len();
    let mut p: usize = 0;
    while p < first
        invariant
            p <= first,
            first == record@.successes.len(),
            order == order_of(record@),
            txs == reordered(batch@, record@).txs,
            valid_record(batch@, record@),
            serial::fits(old(state)@, txs),
            state@ == serial::run_txs(old(state)@, txs.take(p as int)),
        decreases first - p,
    {
        let index = record.speculative_success_indices[p];
        assert(order[p as int] == index);
        assert(txs[p as int] == batch.txs@[index as int]@);
        apply_reference_tx(state, &batch.txs[index]);
        p += 1;
        proof {
            assert(txs.take(p as int).drop_last() =~= txs.take(p - 1));
            assert(txs.take(p as int).last() == txs[p - 1]);
        }
    }
    let mut q: usize = 0;
    while q < record.fallback_indices.len()
        invariant
            q <= record.fallback_indices.len(),
            first == record@.successes.len(),
            order == order_of(record@),
            txs == reordered(batch@, record@).txs,
            valid_record(batch@, record@),
            serial::fits(old(state)@, txs),
            state@ == serial::run_txs(old(state)@, txs.take(first + q)),
        decreases record.fallback_indices.len() - q,
    {
        let index = record.fallback_indices[q];
        assert(order[first + q] == index);
        assert(txs[first + q] == batch.txs@[index as int]@);
        apply_reference_tx(state, &batch.txs[index]);
        q += 1;
        proof {
            assert(txs.take(first + q).drop_last() =~= txs.take(first + q - 1));
            assert(txs.take(first + q).last() == txs[first + q - 1]);
        }
    }
    assert(txs.take(first + q) =~= txs);
}

/// The state after `batches` ran one transaction after the other, from nothing,
/// each batch in the order that `reorders` gives.
pub fn reference_execute_scc_reordered_batches(
    batches: &[Batch],
    reorders: &OrdMap<BatchId, SccReorderRecord>,
) -> (r: Result<OrdMap<Key, Inode>>)
    requires
        forall|n: int|
            0 <= n <= batches@.len() && #[trigger] runs_reordered(
                batch_views(batches@),
                reorders@,
                n,
            ) ==> serial::fits(
                Map::empty(),
                serial::all_txs(reordered_batches(batch_views(batches@).take(n), reorders@)),
            ),
    ensures
        r is Ok <==> runs_reordered(batch_views(batches@), reorders@, batches@.len() as int),
        ({
            let views = batch_views(batches@);
            match r {
                Ok(state) => {
                    &&& runs_reordered(views, reorders@, views.len() as int)
                    &&& state@ == serial::run_txs(
                        Map::empty(),
                        serial::all_txs(reordered_batches(views, reorders@)),
                    )
                },
                Err(Error::Checker(CheckerFault::MissingReorder { batch_id })) => {
                    exists|n: int|
                        0 <= n < views.len() && #[trigger] runs_reordered(views, reorders@, n)
                            && views[n].batch_id == batch_id && !reorders@.contains_key(batch_id)
                },
                Err(Error::Checker(fault)) => {
                    exists|n: int|
                        0 <= n < views.len() && #[trigger] runs_reordered(views, reorders@, n)
                            && reorders@.contains_key(views[n].batch_id) && record_fault(
                            views[n],
                            reorders@[views[n].batch_id]@,
                            fault,
                        )
                },
                Err(_) => false,
            }
        }),
{
    let ghost views = batch_views(batches@);
    let mut state: OrdMap<Key, Inode> = OrdMap::new();
    let mut i: usize = 0;
    assert(reordered_batches(views.take(0), reorders@) =~= Seq::<BatchView>::empty());
    while i < batches.len()
        invariant
            i <= batches.len(),
            views == batch_views(batches@),
            runs_reordered(views, reorders@, i as int),
            forall|n: int|
                0 <= n <= batches@.len() && #[trigger] runs_reordered(views, reorders@, n)
                    ==> serial::fits(
                    Map::empty(),
                    serial::all_txs(reordered_batches(views.take(n), reorders@)),
                ),
            state@ == serial::run_txs(
                Map::empty(),
                serial::all_txs(reordered_batches(views.take(i as int), reorders@)),
            ),
        decreases batches.len() - i,
    {
        let batch = &batches[i];
        assert(views[i as int] == batch@);
        let record = match reorders.get(&batch.batch_id) {
            Some(record) => record,
            None => {
                assert(!has_order(views[i as int], reorders@));
                return Err(
                    Error::Checker(CheckerFault::MissingReorder { batch_id: batch.batch_id }),
                );
            },
        };
        match validate_reorder_record(batch, record) {
            Ok(_) => {},
            Err(error) => {
                assert(!has_order(views[i as int], reorders@));
                return Err(error);
            },
        }
        proof {
            assert(has_order(views[i as int], reorders@));
            assert(runs_reordered(views, reorders@, i + 1));
            let next = reordered_batches(views.take(i + 1), reorders@);
            assert(next.drop_last() =~= reordered_batches(views.take(i as int), reorders@));
            assert(next.last() == reordered(batch@, record@));
            serial::lemma_fits_concat(
                Map::empty(),
                serial::all_txs(next.drop_last()),
                next.last().txs,
            );
            serial::lemma_run_concat(
                Map::empty(),
                serial::all_txs(next.drop_last()),
                next.last().txs,
            );
        }
        apply_reordered(&mut state, batch, record);
        i += 1;
    }
    assert(views.take(i as int) =~= views);
    Ok(state)
}

} // verus!
