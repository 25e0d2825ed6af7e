//! What a shard reports of a batch: one record for each transaction that it answers for.

use crate::collections;
use crate::collections::SortKey;
use crate::engine::aria;
use crate::engine::aria::batch as aria_batch;
use crate::engine::aria::fallback;
use crate::engine::aria::fallback::{AriaFallbackCompletion, AriaFallbackView};
use crate::engine::aria::state as known;
use crate::engine::batch;
use crate::engine::calvin;
use crate::engine::calvin::CalvinView;
use crate::engine::reorder;
use crate::engine::scc_batch;
use crate::engine::scc_batch::SccBatchView;
use crate::engine::scc_worker::{SccTerminal, SccWorker};
use crate::error::SpeculationFault;
use crate::indices;
use crate::laws::orders;
use crate::laws::planning;
use crate::lock;
use crate::model::{BatchView, OrderedTxView, ShardId, TxId, TxResultRecord};
use crate::path::Path;
use crate::router;
use crate::scc::commit::SlotView;
use crate::scc::delta::DeltaOpView;
use vstd::prelude::*;

verus! {

/// `records` holds one record of shard `shard_id` for each of `ids`, and nothing else.
pub open spec fn one_each(
    records: Seq<TxResultRecord>,
    ids: Set<TxId>,
    shard_id: ShardId,
) -> bool {
    forall|id: TxId, shard: ShardId| #[trigger]
        batch::records_of(records, id, shard).len() == (if ids.contains(id) && shard == shard_id {
            1nat
        } else {
            0nat
        })
}

/// The ids of the transactions at `places`.
pub open spec fn ids_at(txs: Seq<OrderedTxView>, places: Set<usize>) -> Set<TxId> {
    Set::new(
        |id: TxId|
            exists|i: usize| #[trigger]
                places.contains(i) && i < txs.len() && txs[i as int].tx_id == id,
    )
}

proof fn lemma_none(shard_id: ShardId)
    ensures
        one_each(Seq::empty(), Set::empty(), shard_id),
{
    reveal(Seq::filter);
}

proof fn lemma_one_more(
    records: Seq<TxResultRecord>,
    ids: Set<TxId>,
    shard_id: ShardId,
    record: TxResultRecord,
)
    requires
        one_each(records, ids, shard_id),
        record.shard_id == shard_id,
        !ids.contains(record.tx_id),
    ensures
        one_each(records.push(record), ids.insert(record.tx_id), shard_id),
{
    let more = records.push(record);
    assert(more.drop_last() =~= records);
    assert forall|id: TxId, shard: ShardId| #[trigger]
        batch::records_of(more, id, shard).len() == (if ids.insert(record.tx_id).contains(id)
        && shard == shard_id {
        1nat
    } else {
        0nat
    }) by {
        reveal(Seq::filter);
        assert(batch::records_of(records, id, shard).len() == (if ids.contains(id) && shard
            == shard_id {
            1nat
        } else {
            0nat
        }));
    }
}

proof fn lemma_filter_joined(
    a: Seq<TxResultRecord>,
    b: Seq<TxResultRecord>,
    id: TxId,
    shard: ShardId,
)
    ensures
        batch::records_of(a + b, id, shard).len() == batch::records_of(a, id, shard).len()
            + batch::records_of(b, id, shard).len(),
    decreases b.len(),
{
    reveal(Seq::filter);
    if b.len() == 0 {
        assert(a + b =~= a);
    } else {
        assert((a + b).drop_last() =~= a + b.drop_last());
        lemma_filter_joined(a, b.drop_last(), id, shard);
    }
}

proof fn lemma_joined(
    a: Seq<TxResultRecord>,
    a_ids: Set<TxId>,
    b: Seq<TxResultRecord>,
    b_ids: Set<TxId>,
    shard_id: ShardId,
)
    requires
        one_each(a, a_ids, shard_id),
        one_each(b, b_ids, shard_id),
        a_ids.disjoint(b_ids),
    ensures
        one_each(a + b, a_ids.union(b_ids), shard_id),
{
    assert forall|id: TxId, shard: ShardId| #[trigger]
        batch::records_of(a + b, id, shard).len() == (if a_ids.union(b_ids).contains(id) && shard
        == shard_id {
        1nat
    } else {
        0nat
    }) by {
        lemma_filter_joined(a, b, id, shard);
        assert(!(a_ids.contains(id) && b_ids.contains(id)));
    }
}

proof fn lemma_sorted_too(
    a: Seq<TxResultRecord>,
    b: Seq<TxResultRecord>,
    ids: Set<TxId>,
    shard_id: ShardId,
)
    requires
        one_each(a, ids, shard_id),
        batch::sorted_from(a, b),
    ensures
        one_each(b, ids, shard_id),
{
    assert forall|id: TxId, shard: ShardId| #[trigger]
        batch::records_of(b, id, shard).len() == (if ids.contains(id) && shard == shard_id {
        1nat
    } else {
        0nat
    }) by {
        assert(batch::records_of(b, id, shard) == batch::records_of(a, id, shard));
    }
}

/// A record for the transaction at one place more.
proof fn lemma_place_more(
    txs: Seq<OrderedTxView>,
    records: Seq<TxResultRecord>,
    places: Set<usize>,
    shard_id: ShardId,
    i: usize,
    record: TxResultRecord,
)
    requires
        batch::in_order(txs, txs.len() as int),
        one_each(records, ids_at(txs, places), shard_id),
        i < txs.len(),
        !places.contains(i),
        record.shard_id == shard_id,
        record.tx_id == txs[i as int].tx_id,
    ensures
        one_each(records.push(record), ids_at(txs, places.insert(i)), shard_id),
{
    let ids = ids_at(txs, places);
    if ids.contains(record.tx_id) {
        let j = choose|j: usize| #[trigger]
            places.contains(j) && j < txs.len() && txs[j as int].tx_id == record.tx_id;
        if j < i {
            assert(txs[j as int].tx_id != txs[i as int].tx_id);
        } else {
            assert(txs[i as int].tx_id != txs[j as int].tx_id);
        }
    }
    lemma_one_more(records, ids, shard_id, record);
    assert forall|id: TxId| #[trigger]
        ids_at(txs, places.insert(i)).contains(id) <==> ids.insert(record.tx_id).contains(id) by {
        if ids_at(txs, places.insert(i)).contains(id) {
            let j = choose|j: usize| #[trigger]
                places.insert(i).contains(j) && j < txs.len() && txs[j as int].tx_id == id;
            if j != i {
                assert(places.contains(j));
            }
        }
        if ids.contains(id) {
            let j = choose|j: usize| #[trigger]
                places.contains(j) && j < txs.len() && txs[j as int].tx_id == id;
            assert(places.insert(i).contains(j));
        }
        assert(places.insert(i).contains(i));
    }
    assert(ids_at(txs, places.insert(i)) =~= ids.insert(record.tx_id));
}

/// The workers that have still to report, and the records that came so far.
#[verifier::ext_equal]
pub struct Tally {
    pub pending: Set<TxId>,
    pub results: Seq<TxResultRecord>,
}

impl Tally {
    /// The same once a worker has reported.
    pub open spec fn heard(self, outcome: (TxId, Option<TxResultRecord>)) -> Tally {
        Tally {
            pending: self.pending.remove(outcome.0),
            results: match outcome.1 {
                Some(record) => self.results.push(record),
                None => self.results,
            },
        }
    }

    /// A worker that has not reported yet does so: with a record of its transaction if and
    /// only if this shard answers for it.
    pub open spec fn expects(
        self,
        own: Set<TxId>,
        shard_id: ShardId,
        outcome: (TxId, Option<TxResultRecord>),
    ) -> bool {
        &&& self.pending.contains(outcome.0)
        &&& match outcome.1 {
            Some(record) => own.contains(outcome.0) && record.tx_id == outcome.0
                && record.shard_id == shard_id,
            None => !own.contains(outcome.0),
        }
    }

    /// The same once all of `outcomes` were heard.
    pub open spec fn after(self, outcomes: Seq<(TxId, Option<TxResultRecord>)>) -> Tally
        decreases outcomes.len(),
    {
        if outcomes.len() == 0 {
            self
        } else {
            self.after(outcomes.drop_last()).heard(outcomes.last())
        }
    }

    /// Each of `outcomes` is one that was expected.
    pub open spec fn hears(
        self,
        own: Set<TxId>,
        shard_id: ShardId,
        outcomes: Seq<(TxId, Option<TxResultRecord>)>,
    ) -> bool {
        forall|j: int|
            0 <= j < outcomes.len() ==> #[trigger] self.after(outcomes.take(j)).expects(
                own,
                shard_id,
                outcomes[j],
            )
    }
}

proof fn lemma_tally(
    start: Tally,
    own: Set<TxId>,
    shard_id: ShardId,
    outcomes: Seq<(TxId, Option<TxResultRecord>)>,
)
    requires
        own.subset_of(start.pending),
        start.results == Seq::<TxResultRecord>::empty(),
        start.hears(own, shard_id, outcomes),
    ensures
        one_each(
            start.after(outcomes).results,
            own.difference(start.after(outcomes).pending),
            shard_id,
        ),
    decreases outcomes.len(),
{
    if outcomes.len() == 0 {
        assert(own.difference(start.pending) =~= Set::<TxId>::empty());
        lemma_none(shard_id);
    } else {
        let n = outcomes.len() - 1;
        let front = outcomes.drop_last();
        assert(outcomes.take(n) =~= front);
        assert(start.hears(own, shard_id, front)) by {
            assert forall|j: int| 0 <= j < front.len() implies #[trigger] start.after(
                front.take(j),
            ).expects(own, shard_id, front[j]) by {
                assert(front.take(j) =~= outcomes.take(j));
                assert(start.after(outcomes.take(j)).expects(own, shard_id, outcomes[j]));
            }
        }
        lemma_tally(start, own, shard_id, front);
        let before = start.after(front);
        let (id, record) = outcomes[n];
        assert(start.after(outcomes.take(n)).expects(own, shard_id, outcomes[n]));
        let left = own.difference(before.pending);
        let now = own.difference(before.pending.remove(id));
        match record {
            Some(record) => {
                assert(now =~= left.insert(id));
                lemma_one_more(before.results, left, shard_id, record);
            },
            None => {
                assert(now =~= left);
            },
        }
    }
}

/// The transactions of a batch under locks that shard `shard_id` runs.
pub open spec fn run_by(txs: Seq<OrderedTxView>, shard_count: u64, shard_id: ShardId) -> Set<
    usize,
> {
    Set::new(
        |i: usize|
            i < txs.len() && calvin::active_shards(shard_count, txs[i as int]).contains(shard_id),
    )
}

/// A batch under locks once its transactions are taken in.
pub open spec fn calvin_taken(v: CalvinView, txs: Seq<OrderedTxView>) -> CalvinView
    decreases txs.len(),
{
    if txs.len() == 0 {
        v
    } else {
        let before = calvin_taken(v, txs.drop_last());
        let tx = txs.last();
        let keys = calvin::local_keys_of(before.shard_count, tx, before.shard_id);
        if keys == Set::<Path>::empty() {
            before
        } else {
            CalvinView {
                queues: lock::lined_up(before.queues, tx.tx_id, keys),
                pending: before.pending.insert(tx.tx_id),
                ..before
            }
        }
    }
}

/// Who runs a transaction has keys of it.
proof fn lemma_runs_with_keys(shard_count: u64, tx: OrderedTxView, shard_id: ShardId)
    requires
        calvin::sets_match(tx),
        calvin::active_shards(shard_count, tx).contains(shard_id),
    ensures
        calvin::local_keys_of(shard_count, tx, shard_id) != Set::<Path>::empty(),
{
    planning::lemma_active_take_part(shard_count, tx, shard_id);
    let keys = tx.read_set.union(tx.write_set);
    let k = choose|k: Path| keys.contains(k) && router::shard_of(shard_count, k) == shard_id;
    assert(calvin::local_keys_of(shard_count, tx, shard_id).contains(k));
}

proof fn lemma_calvin_taken(v: CalvinView, txs: Seq<OrderedTxView>)
    requires
        v.pending == Set::<TxId>::empty(),
        v.results == Seq::<TxResultRecord>::empty(),
        forall|i: int| 0 <= i < txs.len() ==> calvin::sets_match(#[trigger] txs[i]),
    ensures
        calvin_taken(v, txs).shard_id == v.shard_id,
        calvin_taken(v, txs).shard_count == v.shard_count,
        calvin_taken(v, txs).results == v.results,
        forall|i: int|
            0 <= i < txs.len() && calvin::active_shards(
                v.shard_count,
                #[trigger] txs[i],
            ).contains(v.shard_id) ==> calvin_taken(v, txs).pending.contains(txs[i].tx_id),
    decreases txs.len(),
{
    if txs.len() > 0 {
        let front = txs.drop_last();
        let n = txs.len() - 1;
        assert forall|i: int| 0 <= i < front.len() implies calvin::sets_match(
            #[trigger] front[i],
        ) by {
            assert(front[i] == txs[i]);
        }
        lemma_calvin_taken(v, front);
        assert forall|i: int|
            0 <= i < txs.len() && calvin::active_shards(
                v.shard_count,
                #[trigger] txs[i],
            ).contains(v.shard_id) implies calvin_taken(v, txs).pending.contains(txs[i].tx_id) by {
            if i < n {
                assert(front[i] == txs[i]);
            } else {
                assert(calvin::sets_match(txs[n]));
                lemma_runs_with_keys(v.shard_count, txs[n], v.shard_id);
            }
        }
    }
}

/// A batch under locks, from its beginning on: its transactions are taken in, each worker
/// reports once, and what the shard then reports holds one record for each transaction
/// that it runs, and nothing else.
pub proof fn lemma_calvin_records(
    start: CalvinView,
    txs: Seq<OrderedTxView>,
    outcomes: Seq<(TxId, Option<TxResultRecord>)>,
    end: CalvinView,
    summary: Seq<TxResultRecord>,
)
    requires
        txs.len() <= usize::MAX,
        start.pending == Set::<TxId>::empty(),
        start.results == Seq::<TxResultRecord>::empty(),
        forall|i: int| 0 <= i < txs.len() ==> calvin::sets_match(#[trigger] txs[i]),
        ({
            let taken = calvin_taken(start, txs);
            let tally = Tally { pending: taken.pending, results: taken.results };
            let own = ids_at(txs, run_by(txs, start.shard_count, start.shard_id));
            &&& tally.hears(own, start.shard_id, outcomes)
            &&& tally.after(outcomes) == (Tally { pending: end.pending, results: end.results })
        }),
        end.pending == Set::<TxId>::empty(),
        batch::sorted_from(end.results, summary),
    ensures
        one_each(
            summary,
            ids_at(txs, run_by(txs, start.shard_count, start.shard_id)),
            start.shard_id,
        ),
{
    let taken = calvin_taken(start, txs);
    let tally = Tally { pending: taken.pending, results: taken.results };
    let own = ids_at(txs, run_by(txs, start.shard_count, start.shard_id));
    lemma_calvin_taken(start, txs);
    assert forall|id: TxId| own.contains(id) implies tally.pending.contains(id) by {
        let i = choose|i: usize| #[trigger]
            run_by(txs, start.shard_count, start.shard_id).contains(i) && i < txs.len()
                && txs[i as int].tx_id == id;
        assert(calvin::active_shards(start.shard_count, txs[i as int]).contains(start.shard_id));
    }
    lemma_tally(tally, own, start.shard_id, outcomes);
    assert(own.difference(end.pending) =~= own);
    lemma_sorted_too(end.results, summary, own, start.shard_id);
}

/// The transactions of a batch on a snapshot that shard `shard_id` answers for.
pub open spec fn answered_by(txs: Seq<OrderedTxView>, shard_count: u64, shard_id: ShardId) -> Set<
    usize,
> {
    Set::new(
        |i: usize|
            i < txs.len() && aria::result_shard(txs[i as int].tx_id, shard_count) == shard_id,
    )
}

/// A batch that runs again once its transactions are taken in.
pub open spec fn fallback_taken(v: AriaFallbackView, txs: Seq<OrderedTxView>) -> AriaFallbackView
    decreases txs.len(),
{
    if txs.len() == 0 {
        v
    } else {
        let before = fallback_taken(v, txs.drop_last());
        let tx = txs.last();
        if fallback::concerns(before.shard_count, before.shard_id, tx) {
            let keys = calvin::local_keys_of(
                before.shard_count,
                reorder::with_derived_sets(tx),
                before.shard_id,
            );
            AriaFallbackView {
                queues: lock::lined_up(before.queues, tx.tx_id, keys),
                pending: before.pending.insert(tx.tx_id),
                ..before
            }
        } else {
            before
        }
    }
}

/// The record that comes with the end of a worker.
pub open spec fn record_in(completion: AriaFallbackCompletion) -> Option<TxResultRecord> {
    match completion {
        AriaFallbackCompletion::Active { record, .. } => record,
        AriaFallbackCompletion::Passive => None,
    }
}

proof fn lemma_fallback_taken(v: AriaFallbackView, txs: Seq<OrderedTxView>)
    requires
        v.pending == Set::<TxId>::empty(),
        v.results == Seq::<TxResultRecord>::empty(),
    ensures
        fallback_taken(v, txs).shard_id == v.shard_id,
        fallback_taken(v, txs).shard_count == v.shard_count,
        fallback_taken(v, txs).results == v.results,
        forall|i: int|
            0 <= i < txs.len() && aria::result_shard((#[trigger] txs[i]).tx_id, v.shard_count)
                == v.shard_id ==> fallback_taken(v, txs).pending.contains(txs[i].tx_id),
    decreases txs.len(),
{
    if txs.len() > 0 {
        let front = txs.drop_last();
        let n = txs.len() - 1;
        lemma_fallback_taken(v, front);
        assert forall|i: int|
            0 <= i < txs.len() && aria::result_shard((#[trigger] txs[i]).tx_id, v.shard_count)
                == v.shard_id implies fallback_taken(v, txs).pending.contains(txs[i].tx_id) by {
            if i < n {
                assert(front[i] == txs[i]);
            } else {
                assert(fallback::active_shards(
                    v.shard_count,
                    reorder::with_derived_sets(txs[n]),
                ).contains(v.shard_id));
            }
        }
    }
}

/// A batch that runs again, from its beginning on: its transactions are taken in, each
/// worker reports once, and what the shard then reports holds one record for each
/// transaction that it answers for, and nothing else.
pub proof fn lemma_fallback_records(
    start: AriaFallbackView,
    txs: Seq<OrderedTxView>,
    completions: Seq<(TxId, AriaFallbackCompletion)>,
    end: AriaFallbackView,
    summary: Seq<TxResultRecord>,
)
    requires
        txs.len() <= usize::MAX,
        start.pending == Set::<TxId>::empty(),
        start.results == Seq::<TxResultRecord>::empty(),
        ({
            let taken = fallback_taken(start, txs);
            let tally = Tally { pending: taken.pending, results: taken.results };
            let own = ids_at(txs, answered_by(txs, start.shard_count, start.shard_id));
            let outcomes = completions.map_values(
                |c: (TxId, AriaFallbackCompletion)| (c.0, record_in(c.1)),
            );
            &&& tally.hears(own, start.shard_id, outcomes)
            &&& tally.after(outcomes) == (Tally { pending: end.pending, results: end.results })
        }),
        end.pending == Set::<TxId>::empty(),
        batch::sorted_from(end.results, summary),
    ensures
        one_each(
            summary,
            ids_at(txs, answered_by(txs, start.shard_count, start.shard_id)),
            start.shard_id,
        ),
{
    let taken = fallback_taken(start, txs);
    let tally = Tally { pending: taken.pending, results: taken.results };
    let own = ids_at(txs, answered_by(txs, start.shard_count, start.shard_id));
    let outcomes = completions.map_values(
        |c: (TxId, AriaFallbackCompletion)| (c.0, record_in(c.1)),
    );
    lemma_fallback_taken(start, txs);
    assert forall|id: TxId| own.contains(id) implies tally.pending.contains(id) by {
        let i = choose|i: usize| #[trigger]
            answered_by(txs, start.shard_count, start.shard_id).contains(i) && i < txs.len()
                && txs[i as int].tx_id == id;
        assert(aria::result_shard(txs[i as int].tx_id, start.shard_count) == start.shard_id);
    }
    lemma_tally(tally, own, start.shard_id, outcomes);
    assert(own.difference(end.pending) =~= own);
    lemma_sorted_too(end.results, summary, own, start.shard_id);
}

/// The transactions at `places` that failed are those of the batch that runs again.
proof fn lemma_failed_ids(
    txs: Seq<OrderedTxView>,
    failed: Set<usize>,
    places: Set<usize>,
    again: Seq<OrderedTxView>,
    again_places: Set<usize>,
)
    requires
        txs.len() <= usize::MAX,
        failed.subset_of(indices::all_indices(txs.len())),
        again.len() == collections::sorted::<usize>(failed).len(),
        forall|k: int|
            0 <= k < again.len() ==> (#[trigger] again[k]).tx_id
                == txs[collections::sorted::<usize>(failed)[k] as int].tx_id,
        forall|k: usize|
            k < again.len() ==> (#[trigger] again_places.contains(k) <==> places.contains(
                collections::sorted::<usize>(failed)[k as int],
            )),
    ensures
        ids_at(again, again_places) == ids_at(txs, places.intersect(failed)),
{
    let order = collections::sorted::<usize>(failed);
    orders::lemma_indices_finite(txs.len());
    vstd::set_lib::lemma_set_subset_finite::<usize>(indices::all_indices(txs.len()), failed);
    collections::lemma_sorted_of_finite::<usize>(failed);
    collections::lemma_ascending_no_duplicates::<usize>(order);
    order.unique_seq_to_set();
    vstd::set_lib::lemma_len_subset::<usize>(failed, indices::all_indices(txs.len()));
    let both = places.intersect(failed);
    assert forall|id: TxId| ids_at(again, again_places).contains(id) <==> ids_at(
        txs,
        both,
    ).contains(id) by {
        if ids_at(again, again_places).contains(id) {
            let k = choose|k: usize| #[trigger]
                again_places.contains(k) && k < again.len() && again[k as int].tx_id == id;
            let i = order[k as int];
            assert(order.to_set().contains(i));
            assert(both.contains(i));
            assert(indices::all_indices(txs.len()).contains(i));
        }
        if ids_at(txs, both).contains(id) {
            let i = choose|i: usize| #[trigger]
                both.contains(i) && i < txs.len() && txs[i as int].tx_id == id;
            assert(order.to_set().contains(i));
            let k = choose|k: int| 0 <= k < order.len() && order[k] == i;
            assert(again_places.contains(k as usize));
            assert(again[k].tx_id == id);
        }
    }
    assert(ids_at(again, again_places) =~= ids_at(txs, both));
}

/// What did not fail at `places`, and what did, make up all of them.
proof fn lemma_parts(txs: Seq<OrderedTxView>, places: Set<usize>, failed: Set<usize>)
    requires
        batch::in_order(txs, txs.len() as int),
    ensures
        ids_at(txs, places.difference(failed)).disjoint(ids_at(txs, places.intersect(failed))),
        ids_at(txs, places.difference(failed)).union(ids_at(txs, places.intersect(failed)))
            == ids_at(txs, places),
{
    let out = places.difference(failed);
    let both = places.intersect(failed);
    assert forall|id: TxId| !(ids_at(txs, out).contains(id) && ids_at(txs, both).contains(id)) by {
        if ids_at(txs, out).contains(id) && ids_at(txs, both).contains(id) {
            let i = choose|i: usize| #[trigger]
                out.contains(i) && i < txs.len() && txs[i as int].tx_id == id;
            let j = choose|j: usize| #[trigger]
                both.contains(j) && j < txs.len() && txs[j as int].tx_id == id;
            if i < j {
                assert(txs[i as int].tx_id != txs[j as int].tx_id);
            } else if j < i {
                assert(txs[j as int].tx_id != txs[i as int].tx_id);
            }
        }
    }
    assert forall|id: TxId| ids_at(txs, out).union(ids_at(txs, both)).contains(id) <==> ids_at(
        txs,
        places,
    ).contains(id) by {
        if ids_at(txs, out).contains(id) {
            let i = choose|i: usize| #[trigger]
                out.contains(i) && i < txs.len() && txs[i as int].tx_id == id;
            assert(places.contains(i));
        }
        if ids_at(txs, both).contains(id) {
            let i = choose|i: usize| #[trigger]
                both.contains(i) && i < txs.len() && txs[i as int].tx_id == id;
            assert(places.contains(i));
        }
        if ids_at(txs, places).contains(id) {
            let i = choose|i: usize| #[trigger]
                places.contains(i) && i < txs.len() && txs[i as int].tx_id == id;
            assert(out.contains(i) || both.contains(i));
        }
    }
    assert(ids_at(txs, out).union(ids_at(txs, both)) =~= ids_at(txs, places));
}

/// What this shard was told of the transactions of a batch on a snapshot: all that it
/// answers for, each under its index.
pub open spec fn told_own(
    staged: Map<usize, known::StagedView>,
    txs: Seq<OrderedTxView>,
    shard_count: u64,
    shard_id: ShardId,
) -> bool {
    &&& answered_by(txs, shard_count, shard_id).subset_of(staged.dom())
    &&& forall|i: usize| #[trigger]
        staged.contains_key(i) ==> i < txs.len() && staged[i].tx_id == txs[i as int].tx_id
            && staged[i].is_result_shard == answered_by(txs, shard_count, shard_id).contains(i)
}

/// The first `n` of `order`.
spec fn up_to(order: Seq<usize>, n: int) -> Set<usize> {
    order.take(n).to_set()
}

proof fn lemma_up_to_next(order: Seq<usize>, n: int)
    requires
        0 <= n < order.len(),
        collections::ascending::<usize>(order),
    ensures
        up_to(order, n + 1) == up_to(order, n).insert(order[n]),
        !up_to(order, n).contains(order[n]),
{
    collections::lemma_take_to_set(order, n);
    if up_to(order, n).contains(order[n]) {
        let m = choose|m: int| 0 <= m < n && order.take(n)[m] == order[n];
        assert(<usize as SortKey>::before(order[m], order[n]));
    }
}

proof fn lemma_answers(
    staged: Map<usize, known::StagedView>,
    txs: Seq<OrderedTxView>,
    order: Seq<usize>,
    failed: Set<usize>,
    shard_count: u64,
    shard_id: ShardId,
    n: int,
)
    requires
        batch::in_order(txs, txs.len() as int),
        told_own(staged, txs, shard_count, shard_id),
        collections::ascending::<usize>(order),
        order.to_set() == staged.dom(),
        0 <= n <= order.len(),
    ensures
        one_each(
            known::answers(staged, order, failed, shard_id, n),
            ids_at(
                txs,
                answered_by(txs, shard_count, shard_id).difference(failed).intersect(
                    up_to(order, n),
                ),
            ),
            shard_id,
        ),
    decreases n,
{
    let own = answered_by(txs, shard_count, shard_id).difference(failed);
    if n == 0 {
        assert(own.intersect(up_to(order, 0)) =~= Set::<usize>::empty());
        assert(ids_at(txs, Set::empty()) =~= Set::<TxId>::empty());
        lemma_none(shard_id);
    } else {
        let i = order[n - 1];
        lemma_answers(staged, txs, order, failed, shard_count, shard_id, n - 1);
        lemma_up_to_next(order, n - 1);
        assert(order.to_set().contains(i));
        assert(staged.contains_key(i));
        let before = own.intersect(up_to(order, n - 1));
        let now = own.intersect(up_to(order, n));
        if own.contains(i) {
            assert(now =~= before.insert(i));
            lemma_place_more(
                txs,
                known::answers(staged, order, failed, shard_id, n - 1),
                before,
                shard_id,
                i,
                TxResultRecord { tx_id: staged[i].tx_id, shard_id, result: staged[i].result->0 },
            );
        } else {
            assert(now =~= before);
        }
    }
}

/// A batch on a snapshot: once the shard was told of all that it answers for, what stands
/// was installed and what failed ran again, what it reports holds one record for each
/// transaction that it answers for, and nothing else.
pub proof fn lemma_aria_records(
    whole: BatchView,
    shard_count: u64,
    shard_id: ShardId,
    staged: Map<usize, known::StagedView>,
    failed: Set<usize>,
    again: Seq<TxResultRecord>,
    summary: Seq<TxResultRecord>,
)
    requires
        whole.txs.len() <= usize::MAX,
        batch::in_order(whole.txs, whole.txs.len() as int),
        told_own(staged, whole.txs, shard_count, shard_id),
        failed.subset_of(indices::all_indices(whole.txs.len())),
        ({
            let rerun = reorder::derived_fallback_batch(whole, failed).txs;
            one_each(again, ids_at(rerun, answered_by(rerun, shard_count, shard_id)), shard_id)
        }),
        ({
            let order = collections::sorted::<usize>(staged.dom());
            batch::sorted_from(
                known::answers(staged, order, failed, shard_id, order.len() as int) + again,
                summary,
            )
        }),
    ensures
        one_each(
            summary,
            ids_at(whole.txs, aria_batch::own_indices(whole, shard_id, shard_count)),
            shard_id,
        ),
{
    let txs = whole.txs;
    let order = collections::sorted::<usize>(staged.dom());
    let own = answered_by(txs, shard_count, shard_id);
    let n = order.len() as int;
    orders::lemma_indices_finite(txs.len());
    assert(staged.dom().subset_of(indices::all_indices(txs.len()))) by {
        assert forall|i: usize| staged.dom().contains(i) implies indices::all_indices(
            txs.len(),
        ).contains(i) by {
            assert(staged.contains_key(i));
        }
    }
    vstd::set_lib::lemma_set_subset_finite::<usize>(indices::all_indices(txs.len()), staged.dom());
    collections::lemma_sorted_of_finite::<usize>(staged.dom());
    lemma_answers(staged, txs, order, failed, shard_count, shard_id, n);
    assert(order.take(n) =~= order);
    assert(own.difference(failed).intersect(up_to(order, n)) =~= own.difference(failed));
    let rerun = reorder::derived_fallback_batch(whole, failed).txs;
    let left = collections::sorted::<usize>(failed);
    assert forall|k: usize| k < rerun.len() implies (#[trigger] answered_by(
        rerun,
        shard_count,
        shard_id,
    ).contains(k) <==> own.contains(left[k as int])) by {
        vstd::set_lib::lemma_set_subset_finite::<usize>(indices::all_indices(txs.len()), failed);
        collections::lemma_sorted_of_finite::<usize>(failed);
        assert(left.to_set().contains(left[k as int]));
        assert(indices::all_indices(txs.len()).contains(left[k as int]));
    }
    lemma_failed_ids(txs, failed, own, rerun, answered_by(rerun, shard_count, shard_id));
    lemma_parts(txs, own, failed);
    let first = known::answers(staged, order, failed, shard_id, n);
    lemma_joined(
        first,
        ids_at(txs, own.difference(failed)),
        again,
        ids_at(txs, own.intersect(failed)),
        shard_id,
    );
    assert(aria_batch::own_indices(whole, shard_id, shard_count) =~= own);
    lemma_sorted_too(first + again, summary, ids_at(txs, own), shard_id);
}

/// How a transaction of a speculative batch ends on a shard: its place, its slot and its
/// record.
pub type SccEnd = (usize, SlotView, Option<TxResultRecord>);

/// The slots and records of a speculative batch after `ends`.
pub open spec fn scc_ended(v: SccBatchView, ends: Seq<SccEnd>) -> (
    Seq<SlotView>,
    Map<usize, TxResultRecord>,
)
    decreases ends.len(),
{
    if ends.len() == 0 {
        (v.slots, v.records)
    } else {
        let (slots, records) = scc_ended(v, ends.drop_last());
        let (index, slot, record) = ends.last();
        (
            slots.update(index as int, slot),
            match record {
                Some(record) => records.insert(index, record),
                None => records,
            },
        )
    }
}

/// A transaction ends once, with a record if and only if it did not fail and this shard
/// runs it.
pub open spec fn proper_end(v: SccBatchView, slots: Seq<SlotView>, end: SccEnd) -> bool {
    let (index, slot, record) = end;
    &&& index < slots.len() && slots[index as int] == SlotView::Pending
    &&& slot != SlotView::Pending
    &&& match record {
        Some(record) => {
            &&& slot != SlotView::Failed
            &&& run_by(v.batch.txs, v.shard_count, v.shard_id).contains(index)
            &&& record.tx_id == v.batch.txs[index as int].tx_id
            &&& record.shard_id == v.shard_id
        },
        None => slot == SlotView::Failed || !run_by(
            v.batch.txs,
            v.shard_count,
            v.shard_id,
        ).contains(index),
    }
}

/// However a worker ends, it ends properly; so does a transaction without keys here.
pub proof fn lemma_ends_are_proper(
    v: SccBatchView,
    slots: Seq<SlotView>,
    index: usize,
    worker: SccWorker,
    end: SccTerminal,
)
    requires
        slots.len() == v.batch.txs.len(),
        index < slots.len(),
        slots[index as int] == SlotView::Pending,
        calvin::sets_match(v.batch.txs[index as int]),
    ensures
        v.is_idle(index as int) ==> proper_end(v, slots, (index, SlotView::NoOp, None)),
        worker.tx@ == v.batch.txs[index as int] && worker.shard_id == v.shard_id
            && worker.participants@.active == calvin::active_shards(
            v.shard_count,
            worker.tx@,
        ) && ((exists|ops: Seq<DeltaOpView>| #[trigger] worker.is_success(end, ops)) || (exists|
            fault: SpeculationFault,
        | #[trigger] worker.is_failure(end, fault))) ==> proper_end(
            v,
            slots,
            (index, end.slot@, end.record),
        ),
{
    let tx = v.batch.txs[index as int];
    if v.is_idle(index as int) && calvin::active_shards(v.shard_count, tx).contains(v.shard_id) {
        lemma_runs_with_keys(v.shard_count, tx, v.shard_id);
        let keys = calvin::local_keys_of(v.shard_count, tx, v.shard_id);
        assert forall|k: Path| !keys.contains(k) by {
            assert(!v.local_reads(index as int).contains(k));
            assert(!v.local_writes(index as int).contains(k));
        }
        assert(keys =~= Set::<Path>::empty());
    }
}

/// Each of `ends` is proper.
pub open spec fn proper_ends(v: SccBatchView, ends: Seq<SccEnd>) -> bool {
    forall|j: int|
        0 <= j < ends.len() ==> #[trigger] proper_end(
            v,
            scc_ended(v, ends.take(j)).0,
            ends[j],
        )
}

/// Records stand for the transactions that this shard runs and that have ended well.
spec fn recorded(
    v: SccBatchView,
    slots: Seq<SlotView>,
    records: Map<usize, TxResultRecord>,
) -> bool {
    &&& slots.len() == v.batch.txs.len()
    &&& forall|i: usize| #[trigger]
        records.contains_key(i) <==> i < slots.len() && run_by(
            v.batch.txs,
            v.shard_count,
            v.shard_id,
        ).contains(i) && slots[i as int] != SlotView::Pending && slots[i as int]
            != SlotView::Failed
    &&& forall|i: usize| #[trigger]
        records.contains_key(i) ==> records[i].tx_id == v.batch.txs[i as int].tx_id
            && records[i].shard_id == v.shard_id
}

proof fn lemma_recorded(v: SccBatchView, ends: Seq<SccEnd>)
    requires
        v.slots == Seq::new(v.batch.txs.len(), |i: int| SlotView::Pending),
        v.records == Map::<usize, TxResultRecord>::empty(),
        proper_ends(v, ends),
    ensures
        recorded(v, scc_ended(v, ends).0, scc_ended(v, ends).1),
    decreases ends.len(),
{
    if ends.len() > 0 {
        let front = ends.drop_last();
        let n = ends.len() - 1;
        assert(ends.take(n) =~= front);
        assert(proper_ends(v, front)) by {
            assert forall|j: int| 0 <= j < front.len() implies #[trigger] proper_end(
                v,
                scc_ended(v, front.take(j)).0,
                front[j],
            ) by {
                assert(front.take(j) =~= ends.take(j));
                assert(proper_end(v, scc_ended(v, ends.take(j)).0, ends[j]));
            }
        }
        lemma_recorded(v, front);
        assert(proper_end(v, scc_ended(v, ends.take(n)).0, ends[n]));
        let (slots, records) = scc_ended(v, front);
        let (after, noted) = scc_ended(v, ends);
        assert forall|i: usize| #[trigger] noted.contains_key(i) <==> i < after.len() && run_by(
            v.batch.txs,
            v.shard_count,
            v.shard_id,
        ).contains(i) && after[i as int] != SlotView::Pending && after[i as int]
            != SlotView::Failed by {
            assert(records.contains_key(i) <==> i < slots.len() && run_by(
                v.batch.txs,
                v.shard_count,
                v.shard_id,
            ).contains(i) && slots[i as int] != SlotView::Pending && slots[i as int]
                != SlotView::Failed);
        }
        assert forall|i: usize| #[trigger] noted.contains_key(i) implies noted[i].tx_id
            == v.batch.txs[i as int].tx_id && noted[i].shard_id == v.shard_id by {
            if i != ends[n].0 {
                assert(records.contains_key(i));
            }
        }
    }
}

proof fn lemma_standing(
    txs: Seq<OrderedTxView>,
    records: Map<usize, TxResultRecord>,
    order: Seq<usize>,
    failed: Set<usize>,
    shard_id: ShardId,
    n: int,
)
    requires
        batch::in_order(txs, txs.len() as int),
        collections::ascending::<usize>(order),
        order.to_set() == records.dom(),
        forall|i: usize| #[trigger]
            records.contains_key(i) ==> i < txs.len() && records[i].tx_id == txs[i as int].tx_id
                && records[i].shard_id == shard_id && !failed.contains(i),
        0 <= n <= order.len(),
    ensures
        one_each(
            scc_batch::standing(records, order.take(n), failed),
            ids_at(txs, up_to(order, n)),
            shard_id,
        ),
    decreases n,
{
    if n == 0 {
        assert(order.take(0) =~= Seq::<usize>::empty());
        assert(up_to(order, 0) =~= Set::<usize>::empty());
        assert(ids_at(txs, Set::empty()) =~= Set::<TxId>::empty());
        lemma_none(shard_id);
    } else {
        let i = order[n - 1];
        lemma_standing(txs, records, order, failed, shard_id, n - 1);
        lemma_up_to_next(order, n - 1);
        assert(order.take(n).drop_last() =~= order.take(n - 1));
        assert(order.to_set().contains(i));
        assert(records.contains_key(i));
        lemma_place_more(
            txs,
            scc_batch::standing(records, order.take(n - 1), failed),
            up_to(order, n - 1),
            shard_id,
            i,
            records[i],
        );
    }
}

/// A speculative batch, from its beginning on: once every transaction has ended on this
/// shard and what failed ran again, what it reports holds one record for each transaction
/// that it runs, and nothing else.
pub proof fn lemma_scc_records(
    start: SccBatchView,
    ends: Seq<SccEnd>,
    end: SccBatchView,
    again: Seq<TxResultRecord>,
    summary: Seq<TxResultRecord>,
)
    requires
        start.batch.txs.len() <= usize::MAX,
        batch::in_order(start.batch.txs, start.batch.txs.len() as int),
        start.slots == Seq::new(start.batch.txs.len(), |i: int| SlotView::Pending),
        start.records == Map::<usize, TxResultRecord>::empty(),
        proper_ends(start, ends),
        scc_ended(start, ends) == (end.slots, end.records),
        forall|i: int| 0 <= i < end.slots.len() ==> #[trigger] end.slots[i] != SlotView::Pending,
        ({
            let rerun = reorder::fallback_batch(
                start.batch,
                reorder::failed_slots(end.slots),
            ).txs;
            one_each(
                again,
                ids_at(rerun, run_by(rerun, start.shard_count, start.shard_id)),
                start.shard_id,
            )
        }),
        batch::sorted_from(
            scc_batch::standing(
                end.records,
                collections::sorted::<usize>(end.records.dom()),
                reorder::failed_slots(end.slots),
            ) + again,
            summary,
        ),
    ensures
        one_each(
            summary,
            ids_at(
                start.batch.txs,
                run_by(start.batch.txs, start.shard_count, start.shard_id),
            ),
            start.shard_id,
        ),
{
    let txs = start.batch.txs;
    let shard_id = start.shard_id;
    let failed = reorder::failed_slots(end.slots);
    let records = end.records;
    let own = run_by(txs, start.shard_count, shard_id);
    let order = collections::sorted::<usize>(records.dom());
    let n = order.len() as int;
    lemma_recorded(start, ends);
    orders::lemma_indices_finite(txs.len());
    assert(records.dom() =~= own.difference(failed)) by {
        assert forall|i: usize| records.dom().contains(i) <==> own.difference(failed).contains(
            i,
        ) by {
            assert(records.contains_key(i) == records.dom().contains(i));
            if own.contains(i) {
                assert(end.slots[i as int] != SlotView::Pending);
            }
        }
    }
    assert(records.dom().subset_of(indices::all_indices(txs.len())));
    vstd::set_lib::lemma_set_subset_finite::<usize>(indices::all_indices(txs.len()), records.dom());
    collections::lemma_sorted_of_finite::<usize>(records.dom());
    assert forall|i: usize| #[trigger] records.contains_key(i) implies i < txs.len()
        && records[i].tx_id == txs[i as int].tx_id && records[i].shard_id == shard_id
        && !failed.contains(i) by {}
    lemma_standing(txs, records, order, failed, shard_id, n);
    assert(order.take(n) =~= order);
    let rerun = reorder::fallback_batch(start.batch, failed).txs;
    let left = collections::sorted::<usize>(failed);
    assert(failed.subset_of(indices::all_indices(txs.len())));
    assert forall|k: usize| k < rerun.len() implies (#[trigger] run_by(
        rerun,
        start.shard_count,
        shard_id,
    ).contains(k) <==> own.contains(left[k as int])) by {
        vstd::set_lib::lemma_set_subset_finite::<usize>(indices::all_indices(txs.len()), failed);
        collections::lemma_sorted_of_finite::<usize>(failed);
        assert(left.to_set().contains(left[k as int]));
        assert(indices::all_indices(txs.len()).contains(left[k as int]));
    }
    lemma_failed_ids(txs, failed, own, rerun, run_by(rerun, start.shard_count, shard_id));
    lemma_parts(txs, own, failed);
    let first = scc_batch::standing(records, order, failed);
    lemma_joined(
        first,
        ids_at(txs, own.difference(failed)),
        again,
        ids_at(txs, own.intersect(failed)),
        shard_id,
    );
    lemma_sorted_too(first + again, summary, ids_at(txs, own), shard_id);
}

} // verus!
