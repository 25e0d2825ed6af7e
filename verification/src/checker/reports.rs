//! Whether the orders that the shards recorded go together.

use crate::checker::reference;
use crate::collections;
use crate::collections::{OrdMap, OrdSet, SortKey};
use crate::error::{CheckerFault, Error, Result};
use crate::indices;
use crate::indices::{add_indices, indices_below, to_indices};
use crate::model::{Batch, BatchId, BatchView, ReorderView, SccReorderRecord, ShardId};
use vstd::prelude::*;

verus! {

/// The views of the records that one shard reports.
pub open spec fn record_views(records: Seq<SccReorderRecord>) -> Seq<ReorderView> {
    records.map_values(|r: SccReorderRecord| r@)
}

/// Some batch of `batches` has this id.
pub open spec fn known_batch(batches: Seq<BatchView>, id: BatchId) -> bool {
    exists|i: int| 0 <= i < batches.len() && (#[trigger] batches[i]).batch_id == id
}

/// Position of the batch with this id.
pub open spec fn batch_at(batches: Seq<BatchView>, id: BatchId) -> int {
    choose|i: int| 0 <= i < batches.len() && (#[trigger] batches[i]).batch_id == id
}

/// The first `n` of `batches` have different ids.
pub open spec fn distinct_ids(batches: Seq<BatchView>, n: int) -> bool {
    forall|i: int, j: int|
        0 <= i < j < n ==> (#[trigger] batches[i]).batch_id != (#[trigger] batches[j]).batch_id
}

/// The ids of `batches`.
pub open spec fn id_set(batches: Seq<BatchView>) -> Set<BatchId> {
    Set::new(|id: BatchId| known_batch(batches, id))
}

/// The record is about one of `batches` and fits it.
pub open spec fn good_record(batches: Seq<BatchView>, record: ReorderView) -> bool {
    known_batch(batches, record.batch_id) && reference::valid_record(
        batches[batch_at(batches, record.batch_id)],
        record,
    )
}

/// One of the first `n` records is about the batch with this id.
pub open spec fn reported(records: Seq<ReorderView>, id: BatchId, n: int) -> bool {
    exists|p: int| 0 <= p < n && (#[trigger] records[p]).batch_id == id
}

/// The first `n` records are good and about different batches.
pub open spec fn good_records(batches: Seq<BatchView>, records: Seq<ReorderView>, n: int) -> bool {
    &&& forall|p: int| 0 <= p < n ==> good_record(batches, #[trigger] records[p])
    &&& forall|p: int, q: int|
        0 <= p < q < n ==> (#[trigger] records[p]).batch_id != (#[trigger] records[q]).batch_id
}

/// The shard reports one good record for each batch.
pub open spec fn good_report(batches: Seq<BatchView>, records: Seq<ReorderView>) -> bool {
    &&& good_records(batches, records, records.len() as int)
    &&& forall|id: BatchId| #[trigger]
        known_batch(batches, id) ==> reported(records, id, records.len() as int)
}

/// What the shards report.
pub open spec fn report_views(shards: Seq<(ShardId, Vec<SccReorderRecord>)>) -> Seq<
    (ShardId, Seq<ReorderView>),
> {
    shards.map_values(|s: (ShardId, Vec<SccReorderRecord>)| (s.0, record_views(s.1@)))
}

/// The first `n` shards report well.
pub open spec fn good_reports(
    batches: Seq<BatchView>,
    reports: Seq<(ShardId, Seq<ReorderView>)>,
    n: int,
) -> bool {
    forall|s: int| 0 <= s < n ==> good_report(batches, (#[trigger] reports[s]).1)
}

/// A record among the first `n` says that transaction `index` of batch `id` fell
/// back.
pub open spec fn falls_back_in(
    records: Seq<ReorderView>,
    id: BatchId,
    index: usize,
    n: int,
) -> bool {
    exists|p: int|
        0 <= p < n && (#[trigger] records[p]).batch_id == id && records[p].fallbacks.contains(index)
}

/// The transactions of batch `id` that fell back on one of the first `n` shards.
pub open spec fn fallback_union(
    reports: Seq<(ShardId, Seq<ReorderView>)>,
    id: BatchId,
    n: int,
) -> Set<usize> {
    Set::new(
        |index: usize|
            exists|s: int|
                0 <= s < n && falls_back_in(
                    (#[trigger] reports[s]).1,
                    id,
                    index,
                    reports[s].1.len() as int,
                ),
    )
}

/// The order against which the shards' states are held: what fell back on no
/// shard first, then the rest, both in batch order.
pub open spec fn union_order(
    batch: BatchView,
    reports: Seq<(ShardId, Seq<ReorderView>)>,
) -> ReorderView {
    let fallen = fallback_union(reports, batch.batch_id, reports.len() as int);
    ReorderView {
        batch_id: batch.batch_id,
        successes: collections::sorted::<usize>(indices::all_indices(batch.txs.len()).difference(fallen)),
        fallbacks: collections::sorted::<usize>(fallen),
    }
}

/// Where each batch stands, by its id.
fn index_batches(batches: &[Batch]) -> (r: Result<OrdMap<BatchId, usize>>)
    ensures
        ({
            let views = reference::batch_views(batches@);
            match r {
                Ok(by_id) => {
                    &&& distinct_ids(views, views.len() as int)
                    &&& by_id@.dom() == id_set(views)
                    &&& forall|id: BatchId| #[trigger]
                        by_id@.contains_key(id) ==> by_id@[id] < views.len()
                            && views[by_id@[id] as int].batch_id == id && by_id@[id] == batch_at(
                            views,
                            id,
                        )
                },
                Err(Error::Checker(CheckerFault::DuplicateBatch { batch_id })) => {
                    exists|n: int|
                        0 <= n < views.len() && #[trigger] distinct_ids(views, n)
                            && views[n].batch_id == batch_id && known_batch(views.take(n), batch_id)
                },
                Err(_) => false,
            }
        }),
{
    let ghost views = reference::batch_views(batches@);
    let mut by_id: OrdMap<BatchId, usize> = OrdMap::new();
    let mut i: usize = 0;
    while i < batches.len()
        invariant
            i <= batches.len(),
            views == reference::batch_views(batches@),
            distinct_ids(views, i as int),
            forall|id: BatchId| #[trigger]
                by_id@.contains_key(id) ==> by_id@[id] < i && views[by_id@[id] as int].batch_id
                    == id,
            forall|j: int| 0 <= j < i ==> by_id@.contains_key((#[trigger] views[j]).batch_id),
        decreases batches.len() - i,
    {
        let batch_id = batches[i].batch_id;
        assert(views[i as int].batch_id == batch_id);
        let ghost before_map = by_id@;
        match by_id.insert(batch_id, i) {
            Some(earlier) => {
                proof {
                    assert(before_map.contains_key(batch_id));
                    assert(views.take(i as int)[earlier as int].batch_id == batch_id);
                }
                return Err(Error::Checker(CheckerFault::DuplicateBatch { batch_id }));
            },
            None => {},
        }
        i += 1;
    }
    proof {
        assert forall|id: BatchId| #[trigger] by_id@.contains_key(id) implies by_id@[id] == batch_at(
            views,
            id,
        ) by {
            assert(views[by_id@[id] as int].batch_id == id);
            assert(known_batch(views, id));
            let k = batch_at(views, id);
            if k < by_id@[id] {
                assert(views[k].batch_id != views[by_id@[id] as int].batch_id);
            } else if k > by_id@[id] {
                assert(views[by_id@[id] as int].batch_id != views[k].batch_id);
            }
        }
        assert(by_id@.dom() =~= id_set(views)) by {
            assert forall|id: BatchId| #[trigger] by_id@.dom().contains(id) <==> id_set(
                views,
            ).contains(id) by {
                if by_id@.contains_key(id) {
                    assert(views[by_id@[id] as int].batch_id == id);
                }
            }
        }
    }
    Ok(by_id)
}

/// What fell back of the batches on the shards before `s` and in the first `p`
/// records of shard `s`.
spec fn fallen_so_far(
    reports: Seq<(ShardId, Seq<ReorderView>)>,
    id: BatchId,
    s: int,
    p: int,
) -> Set<usize> {
    fallback_union(reports, id, s).union(
        Set::new(|index: usize| falls_back_in(reports[s].1, id, index, p)),
    )
}

/// Checks what shard `s` reports and adds what fell back there to `fallen`.
fn check_report(
    batches: &[Batch],
    by_id: &OrdMap<BatchId, usize>,
    shard_id: ShardId,
    records: &Vec<SccReorderRecord>,
    fallen: &mut Vec<OrdSet<usize>>,
    Ghost(reports): Ghost<Seq<(ShardId, Seq<ReorderView>)>>,
    Ghost(s): Ghost<int>,
) -> (r: Result<()>)
    requires
        ({
            let views = reference::batch_views(batches@);
            &&& distinct_ids(views, views.len() as int)
            &&& by_id@.dom() == id_set(views)
            &&& forall|id: BatchId| #[trigger]
                by_id@.contains_key(id) ==> by_id@[id] < views.len()
                    && views[by_id@[id] as int].batch_id == id && by_id@[id] == batch_at(views, id)
            &&& 0 <= s < reports.len()
            &&& reports[s] == (shard_id, record_views(records@))
            &&& old(fallen).len() == batches.len()
            &&& forall|k: int|
                0 <= k < views.len() ==> (#[trigger] old(fallen)@[k])@ == fallback_union(
                    reports,
                    views[k].batch_id,
                    s,
                )
        }),
    ensures
        final(fallen).len() == batches.len(),
        ({
            let views = reference::batch_views(batches@);
            let seen = record_views(records@);
            match r {
                Ok(_) => {
                    &&& good_report(views, seen)
                    &&& forall|k: int|
                        0 <= k < views.len() ==> (#[trigger] final(fallen)@[k])@ == fallback_union(
                            reports,
                            views[k].batch_id,
                            s + 1,
                        )
                },
                Err(error) => report_error(views, shard_id, seen, error),
            }
        }),
{
    let ghost views = reference::batch_views(batches@);
    let ghost seen = record_views(records@);
    let mut reported_ids: OrdSet<BatchId> = OrdSet::new();
    let mut p: usize = 0;
    proof {
        assert forall|k: int| 0 <= k < views.len() implies (#[trigger] fallen@[k])@
            == fallen_so_far(reports, views[k].batch_id, s, 0) by {
            assert(fallen@[k]@ =~= fallen_so_far(reports, views[k].batch_id, s, 0));
        }
    }
    while p < records.len()
        invariant
            p <= records.len(),
            views == reference::batch_views(batches@),
            seen == record_views(records@),
            distinct_ids(views, views.len() as int),
            by_id@.dom() == id_set(views),
            forall|id: BatchId| #[trigger]
                by_id@.contains_key(id) ==> by_id@[id] < views.len()
                    && views[by_id@[id] as int].batch_id == id && by_id@[id] == batch_at(views, id),
            0 <= s < reports.len(),
            reports[s].1 == seen,
            fallen.len() == batches.len(),
            good_records(views, seen, p as int),
            forall|id: BatchId| #[trigger]
                reported_ids@.contains(id) <==> reported(seen, id, p as int),
            forall|k: int|
                0 <= k < views.len() ==> (#[trigger] fallen@[k])@ == fallen_so_far(
                    reports,
                    views[k].batch_id,
                    s,
                    p as int,
                ),
        decreases records.len() - p,
    {
        let record = &records[p];
        assert(seen[p as int] == record@);
        let k = match by_id.get(&record.batch_id) {
            Some(k) => *k,
            None => {
                assert(!id_set(views).contains(record.batch_id));
                return Err(
                    Error::Checker(
                        CheckerFault::UnknownBatch { shard_id, batch_id: record.batch_id },
                    ),
                );
            },
        };
        assert(id_set(views).contains(record.batch_id));
        match reference::validate_reorder_record(&batches[k], record) {
            Ok(_) => {},
            Err(error) => {
                assert(views[k as int] == batches@[k as int]@);
                return Err(error);
            },
        }
        let ghost before_fallen = fallen@;
        add_indices(&mut fallen[k], &record.fallback_indices);
        let added = reported_ids.insert(record.batch_id);
        if !added {
            return Err(Error::Checker(CheckerFault::DuplicateReorder { shard_id }));
        }
        proof {
            assert(good_record(views, seen[p as int]));
            assert forall|a: int, b: int| 0 <= a < b < p + 1 implies (#[trigger] seen[a]).batch_id
                != (#[trigger] seen[b]).batch_id by {
                if b == p && seen[a].batch_id == seen[b].batch_id {
                    assert(reported(seen, seen[b].batch_id, p as int));
                }
            }
            assert forall|id: BatchId| #[trigger] reported_ids@.contains(id) <==> reported(
                seen,
                id,
                p + 1,
            ) by {
                if reported(seen, id, p as int) {
                    let q = choose|q: int| 0 <= q < p && (#[trigger] seen[q]).batch_id == id;
                    assert(seen[q].batch_id == id);
                }
                if id == record.batch_id {
                    assert(seen[p as int].batch_id == id);
                }
            }
            assert forall|j: int| 0 <= j < views.len() implies (#[trigger] fallen@[j])@
                == fallen_so_far(reports, views[j].batch_id, s, p + 1) by {
                lemma_fallen_step(reports, views[j].batch_id, s, p as int);
                assert(before_fallen[j]@ == fallen_so_far(
                    reports,
                    views[j].batch_id,
                    s,
                    p as int,
                ));
                if j != k {
                    if j < k {
                        assert(views[j].batch_id != views[k as int].batch_id);
                    } else {
                        assert(views[k as int].batch_id != views[j].batch_id);
                    }
                }
                assert(fallen@[j]@ =~= fallen_so_far(reports, views[j].batch_id, s, p + 1));
            }
        }
        p += 1;
    }
    proof {
        assert forall|k: int| 0 <= k < views.len() implies (#[trigger] fallen@[k])@
            == fallback_union(reports, views[k].batch_id, s + 1) by {
            lemma_fallen_shard(reports, views[k].batch_id, s);
        }
    }
    let expected = by_id.key_set();
    if !reported_ids.same_as(&expected) {
        proof {
            assert(reported_ids@ =~= Set::new(
                |id: BatchId| reported(seen, id, seen.len() as int),
            ));
            lemma_some_batch_missing(views, seen, reported_ids@);
        }
        return Err(
            Error::Checker(
                CheckerFault::ReorderBatchesMismatch { shard_id, expected, found: reported_ids },
            ),
        );
    }
    proof {
        assert forall|id: BatchId| #[trigger] known_batch(views, id) implies reported(
            seen,
            id,
            seen.len() as int,
        ) by {
            assert(id_set(views).contains(id));
            assert(reported_ids@.contains(id));
        }
    }
    Ok(())
}

/// Why a report is refused: the first reason there is.
pub open spec fn report_error(
    batches: Seq<BatchView>,
    shard_id: ShardId,
    records: Seq<ReorderView>,
    error: Error,
) -> bool {
    match error {
        Error::Checker(CheckerFault::UnknownBatch { shard_id: shard, batch_id }) => {
            &&& shard == shard_id
            &&& exists|p: int|
                0 <= p < records.len() && #[trigger] good_records(batches, records, p)
                    && records[p].batch_id == batch_id && !known_batch(batches, batch_id)
        },
        Error::Checker(CheckerFault::DuplicateReorder { shard_id: shard }) => {
            &&& shard == shard_id
            &&& exists|p: int|
                0 <= p < records.len() && #[trigger] good_records(batches, records, p)
                    && good_record(batches, records[p]) && reported(records, records[p].batch_id, p)
        },
        Error::Checker(
            CheckerFault::ReorderBatchesMismatch { shard_id: shard, expected, found },
        ) => {
            &&& shard == shard_id
            &&& good_records(batches, records, records.len() as int)
            &&& expected@ == id_set(batches)
            &&& found@ == Set::new(|id: BatchId| reported(records, id, records.len() as int))
            &&& exists|id: BatchId| #[trigger]
                known_batch(batches, id) && !reported(records, id, records.len() as int)
        },
        Error::Checker(fault) => {
            exists|p: int|
                0 <= p < records.len() && #[trigger] good_records(batches, records, p)
                    && known_batch(batches, records[p].batch_id) && reference::record_fault(
                    batches[batch_at(batches, records[p].batch_id)],
                    records[p],
                    fault,
                )
        },
        _ => false,
    }
}

/// Where good records do not cover all batches, one batch has none.
proof fn lemma_some_batch_missing(
    batches: Seq<BatchView>,
    records: Seq<ReorderView>,
    ids: Set<BatchId>,
)
    requires
        good_records(batches, records, records.len() as int),
        ids == Set::new(|id: BatchId| reported(records, id, records.len() as int)),
        ids != id_set(batches),
    ensures
        exists|id: BatchId| #[trigger]
            known_batch(batches, id) && !reported(records, id, records.len() as int),
{
    if forall|id: BatchId| #[trigger]
        known_batch(batches, id) ==> reported(records, id, records.len() as int) {
        assert forall|id: BatchId| #[trigger] ids.contains(id) <==> id_set(batches).contains(id) by {
            if reported(records, id, records.len() as int) {
                let p = choose|p: int|
                    0 <= p < records.len() && (#[trigger] records[p]).batch_id == id;
                assert(good_record(batches, records[p]));
            }
        }
        assert(ids =~= id_set(batches));
    }
}

proof fn lemma_fallen_step(
    reports: Seq<(ShardId, Seq<ReorderView>)>,
    id: BatchId,
    s: int,
    p: int,
)
    requires
        0 <= s < reports.len(),
        0 <= p < reports[s].1.len(),
    ensures
        fallen_so_far(reports, id, s, p + 1) == (if reports[s].1[p].batch_id == id {
            fallen_so_far(reports, id, s, p).union(reports[s].1[p].fallbacks.to_set())
        } else {
            fallen_so_far(reports, id, s, p)
        }),
{
    let records = reports[s].1;
    let a = fallen_so_far(reports, id, s, p + 1);
    let b = fallen_so_far(reports, id, s, p);
    assert forall|index: usize| #[trigger] a.contains(index) <==> (b.contains(index) || (
    records[p].batch_id == id && records[p].fallbacks.to_set().contains(index))) by {
        if falls_back_in(records, id, index, p) {
            let q = choose|q: int|
                0 <= q < p && (#[trigger] records[q]).batch_id == id
                    && records[q].fallbacks.contains(index);
            assert(records[q].batch_id == id);
        }
        if falls_back_in(records, id, index, p + 1) {
            let q = choose|q: int|
                0 <= q < p + 1 && (#[trigger] records[q]).batch_id == id
                    && records[q].fallbacks.contains(index);
            if q < p {
                assert(falls_back_in(records, id, index, p));
            }
        }
        if records[p].batch_id == id && records[p].fallbacks.contains(index) {
            assert(falls_back_in(records, id, index, p + 1));
        }
    }
    if records[p].batch_id == id {
        assert(a =~= b.union(records[p].fallbacks.to_set()));
    } else {
        assert(a =~= b);
    }
}

proof fn lemma_fallen_shard(reports: Seq<(ShardId, Seq<ReorderView>)>, id: BatchId, s: int)
    requires
        0 <= s < reports.len(),
    ensures
        fallen_so_far(reports, id, s, reports[s].1.len() as int) == fallback_union(
            reports,
            id,
            s + 1,
        ),
{
    let a = fallen_so_far(reports, id, s, reports[s].1.len() as int);
    let b = fallback_union(reports, id, s + 1);
    assert forall|index: usize| #[trigger] a.contains(index) <==> b.contains(index) by {
        if fallback_union(reports, id, s).contains(index) {
            let t = choose|t: int|
                0 <= t < s && falls_back_in(
                    (#[trigger] reports[t]).1,
                    id,
                    index,
                    reports[t].1.len() as int,
                );
            assert(falls_back_in(reports[t].1, id, index, reports[t].1.len() as int));
        }
        if b.contains(index) {
            let t = choose|t: int|
                0 <= t < s + 1 && falls_back_in(
                    (#[trigger] reports[t]).1,
                    id,
                    index,
                    reports[t].1.len() as int,
                );
            if t < s {
                assert(falls_back_in(reports[t].1, id, index, reports[t].1.len() as int));
                assert(fallback_union(reports, id, s).contains(index));
            }
        }
        if falls_back_in(reports[s].1, id, index, reports[s].1.len() as int) {
            assert(b.contains(index));
        }
    }
    assert(a =~= b);
}

/// Checks that every shard reports one fitting order for each batch, and puts
/// together the order against which the states are held.
pub fn assert_scc_reorders_consistent(
    batches: &[Batch],
    shard_reorders: Vec<(ShardId, Vec<SccReorderRecord>)>,
) -> (r: Result<OrdMap<BatchId, SccReorderRecord>>)
    ensures
        ({
            let views = reference::batch_views(batches@);
            let reports = report_views(shard_reorders@);
            match r {
                Ok(orders) => {
                    &&& distinct_ids(views, views.len() as int)
                    &&& good_reports(views, reports, reports.len() as int)
                    &&& orders@.dom() == id_set(views)
                    &&& forall|i: int|
                        0 <= i < views.len() ==> orders@[(#[trigger] views[i]).batch_id]@
                            == union_order(views[i], reports)
                },
                Err(Error::Checker(CheckerFault::DuplicateBatch { batch_id })) => {
                    exists|n: int|
                        0 <= n < views.len() && #[trigger] distinct_ids(views, n)
                            && views[n].batch_id == batch_id && known_batch(views.take(n), batch_id)
                },
                Err(error) => {
                    &&& distinct_ids(views, views.len() as int)
                    &&& exists|s: int|
                        0 <= s < reports.len() && #[trigger] good_reports(views, reports, s)
                            && report_error(views, reports[s].0, reports[s].1, error)
                },
            }
        }),
{
    let ghost views = reference::batch_views(batches@);
    let ghost reports = report_views(shard_reorders@);
    let by_id = index_batches(batches)?;
    let mut fallen: Vec<OrdSet<usize>> = Vec::new();
    let mut k: usize = 0;
    while k < batches.len()
        invariant
            k <= batches.len(),
            fallen.len() == k,
            forall|j: int| 0 <= j < k ==> (#[trigger] fallen@[j])@ == Set::<usize>::empty(),
        decreases batches.len() - k,
    {
        fallen.push(OrdSet::new());
        k += 1;
    }
    proof {
        assert forall|j: int| 0 <= j < views.len() implies (#[trigger] fallen@[j])@
            == fallback_union(reports, views[j].batch_id, 0) by {
            assert(fallen@[j]@ =~= fallback_union(reports, views[j].batch_id, 0));
        }
    }
    let mut s: usize = 0;
    while s < shard_reorders.len()
        invariant
            s <= shard_reorders.len(),
            views == reference::batch_views(batches@),
            reports == report_views(shard_reorders@),
            distinct_ids(views, views.len() as int),
            by_id@.dom() == id_set(views),
            forall|id: BatchId| #[trigger]
                by_id@.contains_key(id) ==> by_id@[id] < views.len()
                    && views[by_id@[id] as int].batch_id == id && by_id@[id] == batch_at(views, id),
            fallen.len() == batches.len(),
            good_reports(views, reports, s as int),
            forall|j: int|
                0 <= j < views.len() ==> (#[trigger] fallen@[j])@ == fallback_union(
                    reports,
                    views[j].batch_id,
                    s as int,
                ),
        decreases shard_reorders.len() - s,
    {
        let shard_id = shard_reorders[s].0;
        match check_report(
            batches,
            &by_id,
            shard_id,
            &shard_reorders[s].1,
            &mut fallen,
            Ghost(reports),
            Ghost(s as int),
        ) {
            Ok(_) => {},
            Err(error) => {
                assert(report_error(views, reports[s as int].0, reports[s as int].1, error));
                return Err(error);
            },
        }
        s += 1;
    }
    let mut orders: OrdMap<BatchId, SccReorderRecord> = OrdMap::new();
    let mut i: usize = 0;
    while i < batches.len()
        invariant
            i <= batches.len(),
            views == reference::batch_views(batches@),
            reports == report_views(shard_reorders@),
            distinct_ids(views, views.len() as int),
            fallen.len() == batches.len(),
            forall|j: int|
                0 <= j < views.len() ==> (#[trigger] fallen@[j])@ == fallback_union(
                    reports,
                    views[j].batch_id,
                    reports.len() as int,
                ),
            forall|id: BatchId| #[trigger]
                orders@.contains_key(id) <==> known_batch(views.take(i as int), id),
            forall|j: int|
                0 <= j < i ==> orders@[(#[trigger] views[j]).batch_id]@ == union_order(
                    views[j],
                    reports,
                ),
        decreases batches.len() - i,
    {
        let batch_id = batches[i].batch_id;
        let all = indices_below(batches[i].txs.len());
        let kept = all.difference(&fallen[i]);
        let record = SccReorderRecord {
            batch_id,
            speculative_success_indices: to_indices(&kept),
            fallback_indices: to_indices(&fallen[i]),
        };
        assert(views[i as int] == batches@[i as int]@);
        assert(record@ == union_order(views[i as int], reports));
        let ghost before_orders = orders@;
        let _ = orders.insert(batch_id, record);
        proof {
            assert forall|id: BatchId| #[trigger] orders@.contains_key(id) <==> known_batch(
                views.take(i + 1),
                id,
            ) by {
                let now = views.take(i + 1);
                let then_ = views.take(i as int);
                if known_batch(then_, id) {
                    let j = choose|j: int|
                        0 <= j < then_.len() && (#[trigger] then_[j]).batch_id == id;
                    assert(now[j].batch_id == id);
                }
                if known_batch(now, id) {
                    let j = choose|j: int| 0 <= j < now.len() && (#[trigger] now[j]).batch_id == id;
                    if j < i {
                        assert(then_[j].batch_id == id);
                    }
                }
                assert(now[i as int].batch_id == batch_id);
            }
            assert forall|j: int| 0 <= j < i + 1 implies orders@[(#[trigger] views[j]).batch_id]@
                == union_order(views[j], reports) by {
                if j < i {
                    assert(views[j].batch_id != views[i as int].batch_id);
                }
            }
        }
        i += 1;
    }
    proof {
        assert(views.take(views.len() as int) =~= views);
        assert(orders@.dom() =~= id_set(views));
    }
    Ok(orders)
}

} // verus!
