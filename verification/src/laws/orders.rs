//! The order in which a batch counts as run, and what the shards record of it.

use crate::checker::reference;
use crate::checker::reports;
use crate::collections;
use crate::collections::SortKey;
use crate::engine::reorder;
use crate::indices;
use crate::laws::speculation;
use crate::laws::tree;
use crate::model::{
    BatchId, BatchView, OrderedTxView, ReorderView, SccReorderRecord, ShardId,
};
use crate::serial;
use crate::state::State;
use vstd::prelude::*;

verus! {

/// The indices of a batch are as many as it is long.
pub proof fn lemma_indices_finite(len: nat)
    requires
        len <= usize::MAX,
    ensures
        indices::all_indices(len).finite(),
        indices::all_indices(len).len() == len,
    decreases len,
{
    if len == 0 {
        assert(indices::all_indices(0) =~= Set::<usize>::empty());
    } else {
        let last = (len - 1) as usize;
        lemma_indices_finite((len - 1) as nat);
        assert(indices::all_indices(len) =~= indices::all_indices((len - 1) as nat).insert(last));
    }
}

/// The transactions at some places, in batch order.
pub open spec fn at_places(txs: Seq<OrderedTxView>, places: Seq<usize>) -> Seq<OrderedTxView> {
    places.map_values(|i: usize| txs[i as int])
}

/// What is kept of a batch are the transactions at the places that did not fail.
pub proof fn lemma_kept_places(txs: Seq<OrderedTxView>, failed: Set<usize>, n: nat)
    requires
        n <= txs.len(),
        n <= usize::MAX,
    ensures
        speculation::kept(txs, failed, n as int) == at_places(
            txs,
            collections::sorted::<usize>(indices::all_indices(n).difference(failed)),
        ),
    decreases n,
{
    let places = indices::all_indices(n).difference(failed);
    if n == 0 {
        assert(places =~= Set::<usize>::empty());
        collections::lemma_sorted::<usize>(Seq::empty());
        assert(Seq::<usize>::empty().to_set() =~= places);
        assert(at_places(txs, Seq::empty()) =~= Seq::<OrderedTxView>::empty());
    } else {
        let last = (n - 1) as usize;
        let m = (n - 1) as nat;
        let before = indices::all_indices(m).difference(failed);
        lemma_kept_places(txs, failed, m);
        lemma_indices_finite(m);
        if failed.contains(last) {
            assert(places =~= before);
        } else {
            assert(places =~= before.insert(last));
            assert forall|i: usize| #[trigger] before.contains(i) implies <usize as SortKey>::before(
                i,
                last,
            ) by {}
            collections::lemma_sorted_push::<usize>(before, last);
            let order = collections::sorted::<usize>(before);
            assert(at_places(txs, order.push(last)) =~= at_places(txs, order).push(txs[n - 1]));
        }
    }
}

/// The order that a shard records puts each transaction of the batch in its place.
pub proof fn lemma_recorded_order_valid(batch: BatchView, failed: Set<usize>)
    requires
        batch.txs.len() <= usize::MAX,
        failed.subset_of(indices::all_indices(batch.txs.len())),
    ensures
        reference::valid_record(
            batch,
            reorder::order_with_failures(batch.batch_id, batch.txs.len(), failed),
        ),
{
    let len = batch.txs.len();
    let all = indices::all_indices(len);
    let record = reorder::order_with_failures(batch.batch_id, len, failed);
    let stays = all.difference(failed);
    lemma_indices_finite(len);
    vstd::set_lib::lemma_set_subset_finite::<usize>(all, failed);
    collections::lemma_sorted_of_finite::<usize>(stays);
    collections::lemma_sorted_of_finite::<usize>(failed);
    let a = record.successes;
    let b = record.fallbacks;
    let order = reference::order_of(record);
    assert forall|p: int| 0 <= p < order.len() implies #[trigger] order[p] < len by {
        if p < a.len() {
            assert(a.to_set().contains(a[p]));
            assert(stays.contains(a[p]));
        } else {
            assert(b.to_set().contains(b[p - a.len()]));
            assert(failed.contains(b[p - a.len()]));
            assert(all.contains(b[p - a.len()]));
        }
    }
    assert forall|p: int, q: int| 0 <= p < q < order.len() implies #[trigger] order[p]
        != #[trigger] order[q] by {
        if q < a.len() {
            assert(<usize as SortKey>::before(a[p], a[q]));
        } else if p >= a.len() {
            assert(<usize as SortKey>::before(b[p - a.len()], b[q - a.len()]));
        } else {
            assert(a.to_set().contains(a[p]));
            assert(stays.contains(a[p]));
            assert(b.to_set().contains(b[q - a.len()]));
            assert(failed.contains(b[q - a.len()]));
        }
    }
    assert forall|i: usize| i < len implies #[trigger] order.contains(i) by {
        if failed.contains(i) {
            assert(b.to_set().contains(i));
            let p = choose|p: int| 0 <= p < b.len() && b[p] == i;
            assert(order[a.len() + p] == i);
        } else {
            assert(stays.contains(i));
            assert(a.to_set().contains(i));
            let p = choose|p: int| 0 <= p < a.len() && a[p] == i;
            assert(order[p] == i);
        }
    }
}

/// Where all shards report well, the order against which their states are held puts each
/// transaction of the batch in its place.
pub proof fn lemma_union_order_valid(
    batches: Seq<BatchView>,
    reports: Seq<(ShardId, Seq<ReorderView>)>,
    b: int,
)
    requires
        0 <= b < batches.len(),
        batches[b].txs.len() <= usize::MAX,
        reports::distinct_ids(batches, batches.len() as int),
        reports::good_reports(batches, reports, reports.len() as int),
    ensures
        reference::valid_record(batches[b], reports::union_order(batches[b], reports)),
{
    let batch = batches[b];
    let fallen = reports::fallback_union(reports, batch.batch_id, reports.len() as int);
    assert forall|i: usize| fallen.contains(i) implies indices::all_indices(
        batch.txs.len(),
    ).contains(i) by {
        let s = choose|s: int|
            0 <= s < reports.len() && reports::falls_back_in(
                (#[trigger] reports[s]).1,
                batch.batch_id,
                i,
                reports[s].1.len() as int,
            );
        let records = reports[s].1;
        assert(reports::good_report(batches, reports[s].1));
        let p = choose|p: int|
            0 <= p < records.len() && (#[trigger] records[p]).batch_id == batch.batch_id
                && records[p].fallbacks.contains(i);
        assert(reports::good_record(batches, records[p]));
        let at = reports::batch_at(batches, records[p].batch_id);
        assert(batches[b].batch_id == records[p].batch_id);
        assert(batches[at].batch_id == records[p].batch_id);
        assert(at == b);
        let q = choose|q: int|
            0 <= q < records[p].fallbacks.len() && records[p].fallbacks[q] == i;
        let order = reference::order_of(records[p]);
        assert(order[records[p].successes.len() + q] == i);
    }
    lemma_recorded_order_valid(batch, fallen);
}

/// Running a transaction has nothing to do with its place in the batch.
pub open spec fn same_but_place(a: Seq<OrderedTxView>, b: Seq<OrderedTxView>) -> bool {
    &&& a.len() == b.len()
    &&& forall|i: int|
        0 <= i < a.len() ==> (#[trigger] a[i]).op == b[i].op && a[i].read_set == b[i].read_set
            && a[i].write_set == b[i].write_set && a[i].tx_id == b[i].tx_id
}

pub proof fn lemma_place_does_not_matter(
    s: State,
    a: Seq<OrderedTxView>,
    b: Seq<OrderedTxView>,
)
    requires
        same_but_place(a, b),
    ensures
        serial::run_txs(s, a) == serial::run_txs(s, b),
    decreases a.len(),
{
    if a.len() > 0 {
        let n = a.len() - 1;
        assert(a[n].op == b[n].op);
        assert(same_but_place(a.drop_last(), b.drop_last())) by {
            assert forall|i: int| 0 <= i < n implies (#[trigger] a.drop_last()[i]).op
                == b.drop_last()[i].op && a.drop_last()[i].read_set == b.drop_last()[i].read_set
                && a.drop_last()[i].write_set == b.drop_last()[i].write_set && a.drop_last()[i].tx_id
                == b.drop_last()[i].tx_id by {
                assert(a[i].op == b[i].op);
            }
        }
        lemma_place_does_not_matter(s, a.drop_last(), b.drop_last());
    }
}

/// What stands of a batch, and then what is run again, is the batch in the order that is
/// recorded.
pub proof fn lemma_fallback_completes_order(s: State, batch: BatchView, failed: Set<usize>)
    requires
        batch.txs.len() <= usize::MAX,
        failed.subset_of(indices::all_indices(batch.txs.len())),
    ensures
        serial::run_txs(
            serial::run_txs(
                s,
                speculation::kept(batch.txs, failed, batch.txs.len() as int),
            ),
            reorder::fallback_batch(batch, failed).txs,
        ) == serial::run_txs(
            s,
            reference::reordered(
                batch,
                reorder::order_with_failures(batch.batch_id, batch.txs.len(), failed),
            ).txs,
        ),
{
    let len = batch.txs.len();
    let record = reorder::order_with_failures(batch.batch_id, len, failed);
    let stands = speculation::kept(batch.txs, failed, len as int);
    let again = reorder::fallback_batch(batch, failed).txs;
    let whole = reference::reordered(batch, record).txs;
    lemma_kept_places(batch.txs, failed, len);
    serial::lemma_run_concat(s, stands, again);
    let a = record.successes;
    let b = record.fallbacks;
    assert(same_but_place(stands + again, whole)) by {
        assert forall|i: int| 0 <= i < whole.len() implies (#[trigger] (stands + again)[i]).op
            == whole[i].op && (stands + again)[i].read_set == whole[i].read_set && (stands
            + again)[i].write_set == whole[i].write_set && (stands + again)[i].tx_id
            == whole[i].tx_id by {
            if i < a.len() {
                assert((stands + again)[i] == stands[i]);
                assert(stands[i] == batch.txs[a[i] as int]);
            } else {
                assert((stands + again)[i] == again[i - a.len()]);
            }
        }
    }
    lemma_place_does_not_matter(s, stands + again, whole);
}

/// An order that gives a batch no place twice has no more places than the batch.
proof fn lemma_order_fits(batch: BatchView, record: ReorderView)
    requires
        reference::valid_record(batch, record),
    ensures
        reference::order_of(record).len() <= batch.txs.len(),
{
    let order = reference::order_of(record);
    let places = order.map_values(|i: usize| i as int);
    let all = vstd::set_lib::set_int_range(0, batch.txs.len() as int);
    assert(places.no_duplicates()) by {
        assert forall|p: int, q: int|
            0 <= p < places.len() && 0 <= q < places.len() && p != q implies places[p]
            != places[q] by {
            assert(order[p] != order[q]);
        }
    }
    places.unique_seq_to_set();
    assert forall|i: int| #[trigger] places.to_set().contains(i) implies all.contains(i) by {
        let p = choose|p: int| 0 <= p < places.len() && places[p] == i;
        assert(order[p] < batch.txs.len());
    }
    vstd::set_lib::lemma_int_range(0, batch.txs.len() as int);
    vstd::set_lib::lemma_len_subset(places.to_set(), all);
}

proof fn lemma_reordered_len(
    batches: Seq<BatchView>,
    reorders: Map<BatchId, SccReorderRecord>,
    n: int,
)
    requires
        0 <= n <= batches.len(),
        reference::runs_reordered(batches, reorders, n),
    ensures
        serial::all_txs(reference::reordered_batches(batches.take(n), reorders)).len()
            <= serial::all_txs(batches).len(),
    decreases batches.len(),
{
    let there = reference::reordered_batches(batches.take(n), reorders);
    if n == 0 {
        assert(there =~= Seq::<BatchView>::empty());
    } else if n < batches.len() {
        let front = batches.drop_last();
        assert(front.take(n) =~= batches.take(n));
        assert(reference::runs_reordered(front, reorders, n)) by {
            assert forall|i: int| 0 <= i < n implies reference::has_order(
                #[trigger] front[i],
                reorders,
            ) by {
                assert(front[i] == batches[i]);
            }
        }
        lemma_reordered_len(front, reorders, n);
    } else {
        let front = batches.drop_last();
        assert(reference::runs_reordered(front, reorders, n - 1)) by {
            assert forall|i: int| 0 <= i < n - 1 implies reference::has_order(
                #[trigger] front[i],
                reorders,
            ) by {
                assert(front[i] == batches[i]);
            }
        }
        lemma_reordered_len(front, reorders, n - 1);
        assert(front.take(n - 1) =~= batches.take(n).drop_last());
        assert(there.drop_last() =~= reference::reordered_batches(front.take(n - 1), reorders));
        assert(reference::has_order(batches[n - 1], reorders));
        lemma_order_fits(batches[n - 1], reorders[batches[n - 1].batch_id]@);
    }
}

/// No count overflows while batches run in the orders that were recorded, from nothing,
/// unless there are more transactions than fit a count.
pub proof fn lemma_reordered_run_fits(
    batches: Seq<BatchView>,
    reorders: Map<BatchId, SccReorderRecord>,
)
    requires
        serial::all_txs(batches).len() <= u64::MAX,
    ensures
        forall|n: int|
            0 <= n <= batches.len() && #[trigger] reference::runs_reordered(batches, reorders, n)
                ==> serial::fits(
                Map::empty(),
                serial::all_txs(reference::reordered_batches(batches.take(n), reorders)),
            ),
{
    assert forall|n: int|
        0 <= n <= batches.len() && #[trigger] reference::runs_reordered(
            batches,
            reorders,
            n,
        ) implies serial::fits(
        Map::empty(),
        serial::all_txs(reference::reordered_batches(batches.take(n), reorders)),
    ) by {
        lemma_reordered_len(batches, reorders, n);
        tree::lemma_counts_fit(
            serial::all_txs(reference::reordered_batches(batches.take(n), reorders)),
        );
    }
}

} // verus!
