//! Calls that check a finished run, and the call that makes a workload.

use crate::checker::merge;
use crate::checker::merge::{assert_state_matches, merge_shard_states};
use crate::checker::reference;
use crate::checker::reference::{
    reference_execute_batches, reference_execute_scc_reordered_batches,
};
use crate::checker::reports;
use crate::checker::reports::assert_scc_reorders_consistent;
use crate::checker::results::{assert_aria_tx_results_consistent, assert_tx_results_consistent};
use crate::collections::OrdMap;
use crate::error::{BatchFault, CheckerFault, Error, Result};
use crate::laws::checks;
use crate::laws::spread;
use crate::model::{
    Batch, BatchId, BatchView, FsOp, Inode, Key, SccReorderRecord, ShardId, TxResultRecord,
};
use crate::path;
use crate::path::Path;
use crate::router::ShardLayout;
use crate::serial;
use crate::workload::metadata_workload;
use vstd::prelude::*;

verus! {

proof fn lemma_among_all(batches: Seq<BatchView>, b: int, t: int) -> (n: int)
    requires
        0 <= b < batches.len(),
        0 <= t < batches[b].txs.len(),
    ensures
        0 <= n < serial::all_txs(batches).len(),
        serial::all_txs(batches)[n] == batches[b].txs[t],
    decreases batches.len(),
{
    let front = batches.drop_last();
    if b < batches.len() - 1 {
        lemma_among_all(front, b, t)
    } else {
        serial::all_txs(front).len() + t
    }
}

/// Results that are accepted agree: whatever two records say of one transaction of the
/// batches is the same.
pub proof fn lemma_accepted_results_agree(
    layout: &ShardLayout,
    batches: &[Batch],
    records: &[TxResultRecord],
    r: Result<()>,
    b: int,
    t: int,
    i: int,
    j: int,
)
    requires
        layout.wf(),
        call_ensures(assert_tx_results_consistent, (layout, batches, records), r)
            || call_ensures(assert_aria_tx_results_consistent, (layout, batches, records), r),
        r is Ok,
        0 <= b < batches@.len(),
        0 <= t < batches@[b]@.txs.len(),
        0 <= i < records@.len(),
        0 <= j < records@.len(),
        records@[i].tx_id == batches@[b]@.txs[t].tx_id,
        records@[j].tx_id == batches@[b]@.txs[t].tx_id,
    ensures
        records@[i].result == records@[j].result,
        records@[i].shard_id == records@[j].shard_id ==> i == j,
{
    let views = reference::batch_views(batches@);
    let txs = serial::all_txs(views);
    assert(views[b] == batches@[b]@);
    let n = lemma_among_all(views, b, t);
    assert(txs[n].tx_id == records@[i].tx_id);
    let by_id = call_ensures(
        assert_aria_tx_results_consistent,
        (layout, batches, records),
        r,
    );
    checks::lemma_results_checked(by_id, layout.shard_count, txs, records@, r);
    if i < j {
        assert(!(records@[i].tx_id == records@[j].tx_id && records@[i].shard_id
            == records@[j].shard_id));
    } else if j < i {
        assert(!(records@[j].tx_id == records@[i].tx_id && records@[j].shard_id
            == records@[i].shard_id));
    }
}

/// Results are accepted if and only if they are good: of each transaction those who are to
/// report do, once, and nobody else, and they say the same.
pub proof fn lemma_results_call(
    layout: &ShardLayout,
    batches: &[Batch],
    records: &[TxResultRecord],
    r: Result<()>,
    on_snapshot: Result<()>,
)
    requires
        layout.wf(),
        call_ensures(assert_tx_results_consistent, (layout, batches, records), r),
        call_ensures(assert_aria_tx_results_consistent, (layout, batches, records), on_snapshot),
    ensures
        ({
            let txs = serial::all_txs(reference::batch_views(batches@));
            let n = layout.shard_count;
            &&& r is Ok <==> checks::results_are_good(false, n, txs, records@)
            &&& on_snapshot is Ok <==> checks::results_are_good(true, n, txs, records@)
        }),
{
    let txs = serial::all_txs(reference::batch_views(batches@));
    checks::lemma_results_checked(false, layout.shard_count, txs, records@, r);
    checks::lemma_results_checked(true, layout.shard_count, txs, records@, on_snapshot);
}

/// A refusal of the results names what is wrong with them.
pub proof fn lemma_results_refused_call(
    layout: &ShardLayout,
    batches: &[Batch],
    records: &[TxResultRecord],
    r: Result<()>,
    shard: ShardId,
    i: int,
)
    requires
        layout.wf(),
        call_ensures(assert_tx_results_consistent, (layout, batches, records), r)
            || call_ensures(assert_aria_tx_results_consistent, (layout, batches, records), r),
        0 <= i < records@.len(),
    ensures
        r matches Err(error) ==> error is Checker,
        r matches Err(Error::Checker(CheckerFault::MissingResults { tx_id })) ==> records@[i].tx_id
            != tx_id,
        r matches Err(
            Error::Checker(CheckerFault::ResultShardsMismatch { tx_id, expected, found }),
        ) ==> expected@ != found@ && (found@.contains(shard) <==> checks::has_record(
            records@,
            tx_id,
            shard,
        )),
        r matches Err(Error::Checker(CheckerFault::ResultDisagreement { tx_id, results })) ==> (
        results@.contains_key(shard) <==> checks::has_record(records@, tx_id, shard)) && (
        records@[i].tx_id == tx_id ==> results@[records@[i].shard_id] == records@[i].result),
{
    let txs = serial::all_txs(reference::batch_views(batches@));
    let by_id = call_ensures(
        assert_aria_tx_results_consistent,
        (layout, batches, records),
        r,
    );
    checks::lemma_results_refused(by_id, layout.shard_count, txs, records@, r, shard, i);
}

/// The states of the shards are put together if and only if each key lives on the shard
/// that dumped it and no key is in two dumps. What comes out holds what some shard holds,
/// and nothing else.
pub proof fn lemma_merge_call(
    layout: &ShardLayout,
    shard_states: Vec<(ShardId, OrdMap<Key, Inode>)>,
    r: Result<OrdMap<Key, Inode>>,
    s: int,
    key: Path,
)
    requires
        layout.wf(),
        call_ensures(merge_shard_states, (layout, shard_states), r),
        0 <= s < shard_states@.len(),
    ensures
        r is Ok <==> checks::dumps_are_good(
            layout.shard_count,
            shard_states@.map_values(|d: (ShardId, OrdMap<Key, Inode>)| (d.0, d.1@)),
        ),
        r matches Ok(whole) ==> {
            &&& shard_states@[s].1@.contains_key(key) ==> whole@.contains_key(key) && whole@[key]
                == shard_states@[s].1@[key]
            &&& whole@.contains_key(key) ==> exists|t: int|
                0 <= t < shard_states@.len() && (#[trigger] shard_states@[t]).1@.contains_key(key)
        },
{
    let dumps = merge::dump_views(shard_states@);
    assert(dumps =~= shard_states@.map_values(
        |d: (ShardId, OrdMap<Key, Inode>)| (d.0, d.1@),
    ));
    if let Err(error) = r {
        checks::lemma_dumps_merged(layout.shard_count, dumps, error);
    } else {
        checks::lemma_dumps_merged(layout.shard_count, dumps, Error::Checker(
            CheckerFault::DuplicateReorder { shard_id: 0 },
        ));
        let whole = merge::merged(dumps, dumps.len() as int);
        assert(dumps[s].1 == shard_states@[s].1@);
        if dumps[s].1.contains_key(key) {
            assert(whole.contains_key(key));
        }
        if whole.contains_key(key) {
            let t = choose|t: int|
                0 <= t < dumps.len() && (#[trigger] dumps[t]).1.contains_key(key);
            assert(shard_states@[t].1@.contains_key(key));
        }
    }
}

/// A state matches another if and only if both hold the same keys, and the same under each
/// of them.
pub proof fn lemma_match_call(
    expected: &OrdMap<Key, Inode>,
    actual: &OrdMap<Key, Inode>,
    r: Result<()>,
)
    requires
        call_ensures(assert_state_matches, (expected, actual), r),
    ensures
        r is Ok <==> forall|key: Path|
            (#[trigger] expected@.contains_key(key) <==> actual@.contains_key(key)) && (
            expected@.contains_key(key) ==> expected@[key] == actual@[key]),
{
    if forall|key: Path|
        (#[trigger] expected@.contains_key(key) <==> actual@.contains_key(key)) && (
        expected@.contains_key(key) ==> expected@[key] == actual@[key]) {
        assert(expected@ =~= actual@);
    }
}

/// Running one batch more runs its transactions, in their order, on what the batches
/// before it left; running no batch leaves nothing.
pub proof fn lemma_reference_call(
    batches: &[Batch],
    front: &[Batch],
    whole: OrdMap<Key, Inode>,
    part: OrdMap<Key, Inode>,
)
    requires
        serial::fits(Map::empty(), serial::all_txs(reference::batch_views(batches@))),
        call_ensures(reference_execute_batches, (batches,), whole),
        batches@.len() > 0,
        front@ == batches@.drop_last(),
        call_ensures(reference_execute_batches, (front,), part),
    ensures
        whole@ == serial::run_txs(part@, batches@.last()@.txs),
        batches@.len() == 1 ==> part@ == Map::<Path, Inode>::empty(),
{
    let views = reference::batch_views(batches@);
    let last = batches@.last()@;
    let before = reference::batch_views(front@);
    assert(views =~= before.push(last));
    checks::lemma_batches_in_order(before, last);
    serial::lemma_fits_concat(Map::empty(), serial::all_txs(before), last.txs);
    serial::lemma_run_concat(Map::empty(), serial::all_txs(before), last.txs);
    if batches@.len() == 1 {
        assert(before =~= Seq::<BatchView>::empty());
    }
}

/// Batches are run in given orders if and only if each has an order that names each of its
/// places once. Running one batch more runs its transactions in its order on what the
/// batches before it left.
pub proof fn lemma_reordered_call(
    batches: &[Batch],
    front: &[Batch],
    reorders: &OrdMap<BatchId, SccReorderRecord>,
    whole: Result<OrdMap<Key, Inode>>,
    part: Result<OrdMap<Key, Inode>>,
)
    requires
        call_requires(reference_execute_scc_reordered_batches, (batches, reorders)),
        call_ensures(reference_execute_scc_reordered_batches, (batches, reorders), whole),
        batches@.len() > 0,
        front@ == batches@.drop_last(),
        call_ensures(reference_execute_scc_reordered_batches, (front, reorders), part),
        forall|b: int| 0 <= b < batches@.len() ==> (#[trigger] batches@[b])@.txs.len() <= usize::MAX,
    ensures
        whole is Ok <==> forall|b: int|
            0 <= b < batches@.len() ==> {
                let order = reorders@[(#[trigger] batches@[b])@.batch_id]@;
                let places = order.successes + order.fallbacks;
                &&& reorders@.contains_key(batches@[b]@.batch_id)
                &&& order.batch_id == batches@[b]@.batch_id
                &&& places.no_duplicates()
                &&& forall|i: usize| #[trigger]
                    places.contains(i) <==> i < batches@[b]@.txs.len()
            },
        whole is Ok ==> part is Ok,
        whole is Ok ==> {
            let last = batches@.last()@;
            let order = reorders@[last.batch_id]@;
            let places = order.successes + order.fallbacks;
            whole->Ok_0@ == serial::run_txs(
                part->Ok_0@,
                Seq::new(places.len(), |p: int| last.txs[places[p] as int]),
            )
        },
{
    let views = reference::batch_views(batches@);
    let before = reference::batch_views(front@);
    let last = batches@.last()@;
    assert(views =~= before.push(last));
    assert forall|b: int| 0 <= b < batches@.len() implies (reference::has_order(
        #[trigger] views[b],
        reorders@,
    ) <==> {
        let order = reorders@[batches@[b]@.batch_id]@;
        let places = order.successes + order.fallbacks;
        &&& reorders@.contains_key(batches@[b]@.batch_id)
        &&& order.batch_id == batches@[b]@.batch_id
        &&& places.no_duplicates()
        &&& forall|i: usize| #[trigger] places.contains(i) <==> i < batches@[b]@.txs.len()
    }) by {
        assert(views[b] == batches@[b]@);
        checks::lemma_record_fits(views[b], reorders@[views[b].batch_id]@);
    }
    if whole is Ok {
        assert forall|b: int| 0 <= b < batches@.len() implies {
            let order = reorders@[(#[trigger] batches@[b])@.batch_id]@;
            let places = order.successes + order.fallbacks;
            &&& reorders@.contains_key(batches@[b]@.batch_id)
            &&& order.batch_id == batches@[b]@.batch_id
            &&& places.no_duplicates()
            &&& forall|i: usize| #[trigger] places.contains(i) <==> i < batches@[b]@.txs.len()
        } by {
            assert(reference::has_order(views[b], reorders@));
        }
        assert forall|b: int| 0 <= b < before.len() implies reference::has_order(
            #[trigger] before[b],
            reorders@,
        ) by {
            assert(before[b] == views[b]);
        }
        assert(reference::runs_reordered(before, reorders@, before.len() as int));
        let record = reorders@[last.batch_id]@;
        let placed = reference::reordered_batches(views, reorders@);
        let placed_before = reference::reordered_batches(before, reorders@);
        assert(views[views.len() - 1] == last);
        assert(placed =~= placed_before.push(reference::reordered(last, record)));
        checks::lemma_batches_in_order(placed_before, reference::reordered(last, record));
        serial::lemma_run_concat(
            Map::empty(),
            serial::all_txs(placed_before),
            reference::reordered(last, record).txs,
        );
        let places = record.successes + record.fallbacks;
        assert(reference::reordered(last, record).txs =~= Seq::new(
            places.len(),
            |p: int| last.txs[places[p] as int],
        ));
    } else {
        if forall|b: int|
            0 <= b < batches@.len() ==> {
                let order = reorders@[(#[trigger] batches@[b])@.batch_id]@;
                let places = order.successes + order.fallbacks;
                &&& reorders@.contains_key(batches@[b]@.batch_id)
                &&& order.batch_id == batches@[b]@.batch_id
                &&& places.no_duplicates()
                &&& forall|i: usize| #[trigger]
                    places.contains(i) <==> i < batches@[b]@.txs.len()
            } {
            assert forall|b: int| 0 <= b < views.len() implies reference::has_order(
                #[trigger] views[b],
                reorders@,
            ) by {
                assert(reorders@.contains_key(batches@[b]@.batch_id));
            }
            assert(reference::runs_reordered(views, reorders@, views.len() as int));
        }
    }
}

/// The orders of the shards are put together if and only if no two batches have the same
/// id and each shard reports well. A transaction then comes last if some shard says so,
/// and otherwise first.
pub proof fn lemma_reorders_call(
    batches: &[Batch],
    shard_reorders: Vec<(ShardId, Vec<SccReorderRecord>)>,
    r: Result<OrdMap<BatchId, SccReorderRecord>>,
    b: int,
    index: usize,
)
    requires
        call_ensures(assert_scc_reorders_consistent, (batches, shard_reorders), r),
        r is Ok,
        0 <= b < batches@.len(),
        batches@[b]@.txs.len() <= usize::MAX,
    ensures
        forall|i: int, j: int|
            0 <= i < j < batches@.len() ==> (#[trigger] batches@[i])@.batch_id != (
            #[trigger] batches@[j])@.batch_id,
        forall|s: int|
            0 <= s < shard_reorders@.len() ==> checks::report_is_good(
                reference::batch_views(batches@),
                reports::record_views((#[trigger] shard_reorders@[s]).1@),
            ),
        r->Ok_0@.contains_key(batches@[b]@.batch_id),
        ({
            let order = r->Ok_0@[batches@[b]@.batch_id]@;
            let said = exists|s: int, p: int|
                0 <= s < shard_reorders@.len() && 0 <= p < (#[trigger] shard_reorders@[s]).1@.len()
                    && (#[trigger] shard_reorders@[s].1@[p])@.batch_id == batches@[b]@.batch_id
                    && shard_reorders@[s].1@[p]@.fallbacks.contains(index);
            &&& order.batch_id == batches@[b]@.batch_id
            &&& order.fallbacks.contains(index) <==> said
            &&& order.successes.contains(index) <==> index < batches@[b]@.txs.len() && !said
            &&& forall|x: int, y: int|
                0 <= x < y < order.successes.len() ==> order.successes[x] < order.successes[y]
            &&& forall|x: int, y: int|
                0 <= x < y < order.fallbacks.len() ==> order.fallbacks[x] < order.fallbacks[y]
        }),
{
    let views = reference::batch_views(batches@);
    let shards = reports::report_views(shard_reorders@);
    let batch = views[b];
    assert(batch == batches@[b]@);
    assert forall|i: int, j: int| 0 <= i < j < batches@.len() implies (
    #[trigger] batches@[i])@.batch_id != (#[trigger] batches@[j])@.batch_id by {
        assert(views[i] == batches@[i]@ && views[j] == batches@[j]@);
        assert(views[i].batch_id != views[j].batch_id);
    }
    assert forall|s: int| 0 <= s < shard_reorders@.len() implies checks::report_is_good(
        views,
        reports::record_views((#[trigger] shard_reorders@[s]).1@),
    ) by {
        assert(shards[s].1 == reports::record_views(shard_reorders@[s].1@));
        assert(reports::good_report(views, shards[s].1));
        checks::lemma_report_is_good(views, shards[s].1);
    }
    assert(reports::known_batch(views, batch.batch_id));
    assert forall|s: int, p: int, i: usize|
        0 <= s < shards.len() && 0 <= p < (#[trigger] shards[s]).1.len() && (
        #[trigger] shards[s].1[p]).batch_id == batch.batch_id
            && #[trigger] shards[s].1[p].fallbacks.contains(i) implies i < batch.txs.len() by {
        assert(reports::good_report(views, shards[s].1));
        let record = shards[s].1[p];
        assert(reports::good_record(views, record));
        let k = reports::batch_at(views, record.batch_id);
        if k < b {
            assert(views[k].batch_id != views[b].batch_id);
        } else if b < k {
            assert(views[b].batch_id != views[k].batch_id);
        }
        let order = reference::order_of(record);
        let q = choose|q: int| 0 <= q < record.fallbacks.len() && record.fallbacks[q] == i;
        assert(order[record.successes.len() + q] == i);
    }
    checks::lemma_union_order(batch, shards, index);
    if exists|s: int, p: int|
        0 <= s < shards.len() && 0 <= p < (#[trigger] shards[s]).1.len() && (
        #[trigger] shards[s].1[p]).batch_id == batch.batch_id && shards[s].1[p].fallbacks.contains(
            index,
        ) {
        let (s, p) = choose|s: int, p: int|
            0 <= s < shards.len() && 0 <= p < (#[trigger] shards[s]).1.len() && (
            #[trigger] shards[s].1[p]).batch_id == batch.batch_id
                && shards[s].1[p].fallbacks.contains(index);
        assert(shards[s].1[p] == shard_reorders@[s].1@[p]@);
    }
    if exists|s: int, p: int|
        0 <= s < shard_reorders@.len() && 0 <= p < (#[trigger] shard_reorders@[s]).1@.len() && (
        #[trigger] shard_reorders@[s].1@[p])@.batch_id == batches@[b]@.batch_id
            && shard_reorders@[s].1@[p]@.fallbacks.contains(index) {
        let (s, p) = choose|s: int, p: int|
            0 <= s < shard_reorders@.len() && 0 <= p < (#[trigger] shard_reorders@[s]).1@.len() && (
            #[trigger] shard_reorders@[s].1@[p])@.batch_id == batches@[b]@.batch_id
                && shard_reorders@[s].1@[p]@.fallbacks.contains(index);
        assert(shards[s].1[p] == shard_reorders@[s].1@[p]@);
    }
}

/// A workload is refused only where batches without operations are asked for. Otherwise it
/// has as many batches as asked for; in each the first file stands in the first directory,
/// each other in the one after that of the file before it, or in the first again after the
/// last; and no directory gets more than one file more than another.
pub proof fn lemma_workload_call(
    batch_count: usize,
    batch_size: usize,
    r: Result<Vec<Vec<FsOp>>>,
    b: int,
    d: nat,
    e: nat,
)
    requires
        call_ensures(metadata_workload, (batch_count, batch_size), r),
        0 <= b < batch_count,
        d < spread::room(batch_size as nat),
        e < spread::room(batch_size as nat),
    ensures
        r is Err <==> batch_size == 0,
        r matches Err(error) ==> error == Error::InvalidBatch(BatchFault::NoBatchSize),
        r matches Ok(batches) ==> {
            let ops = batches@[b]@;
            let first = spread::first_file(b as nat, batch_size as nat) as int;
            &&& batches@.len() == batch_count
            &&& ops.len() == batch_size
            &&& spread::files_in(ops, spread::numbered(d), ops.len() as int) <= spread::files_in(
                ops,
                spread::numbered(e),
                ops.len() as int,
            ) + 1
            &&& forall|k: int| 0 <= k < ops.len() ==> ((#[trigger] ops[k])@ is Mkdir <==> k < first)
            &&& forall|k: int| first <= k < ops.len() ==> (#[trigger] ops[k])@ is Create
            &&& forall|j: int, k: int|
                first <= j && k == j + 1 < ops.len() && path::parent_of(
                    (#[trigger] ops[j])@->Create_path,
                ) == spread::numbered(d) && path::parent_of((#[trigger] ops[k])@->Create_path)
                    == spread::numbered(e) ==> e == (if d + 1 == spread::room(batch_size as nat) {
                    0
                } else {
                    d + 1
                })
        },
{
    if batch_size > 0 {
        let ops = r->Ok_0@[b]@;
        spread::lemma_files_take_turns(ops, b as nat, batch_size as nat);
        spread::lemma_files_spread_evenly(ops, b as nat, batch_size as nat, d, e);
    }
}

} // verus!
