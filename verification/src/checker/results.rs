//! Whether the shards agree on the results.

use crate::checker::reference;
use crate::collections::{OrdMap, OrdSet};
use crate::engine::aria;
use crate::engine::aria::aria_result_shard;
use crate::error::{CheckerFault, Error, Result};
use crate::model::{Batch, OrderedTx, OrderedTxView, ShardId, TxId, TxResult, TxResultRecord};
use crate::router;
use crate::router::ShardLayout;
use crate::serial;
use vstd::prelude::*;

verus! {

/// The results that the first `n` records give for a transaction, by shard.
pub open spec fn results_for(records: Seq<TxResultRecord>, tx_id: TxId, n: int) -> Map<
    ShardId,
    TxResult,
>
    decreases n,
{
    if n <= 0 {
        Map::empty()
    } else {
        let record = records[n - 1];
        if record.tx_id == tx_id {
            results_for(records, tx_id, n - 1).insert(record.shard_id, record.result)
        } else {
            results_for(records, tx_id, n - 1)
        }
    }
}

/// No two of the first `n` records are about the same transaction and shard.
pub open spec fn distinct_results(records: Seq<TxResultRecord>, n: int) -> bool {
    forall|i: int, j: int|
        0 <= i < j < n ==> !((#[trigger] records[i]).tx_id == (#[trigger] records[j]).tx_id
            && records[i].shard_id == records[j].shard_id)
}

/// All shards of `results` give the same result.
pub open spec fn all_agree(results: Map<ShardId, TxResult>) -> bool {
    forall|a: ShardId, b: ShardId|
        results.contains_key(a) && results.contains_key(b) ==> #[trigger] results[a]
            == #[trigger] results[b]
}

/// The shards that are to report a result of `tx`: those that run it by its key sets, or
/// the one that its id picks.
pub open spec fn reporting_shards(by_id: bool, shard_count: u64, tx: OrderedTxView) -> Set<
    ShardId,
> {
    if by_id {
        set![aria::result_shard(tx.tx_id, shard_count)]
    } else {
        router::participants_of(shard_count, tx.read_set, tx.write_set).active
    }
}

/// The shards that are to report a result of `tx`, and no others, report one and the
/// same.
pub open spec fn consistent_tx(
    by_id: bool,
    shard_count: u64,
    tx: OrderedTxView,
    records: Seq<TxResultRecord>,
) -> bool {
    let results = results_for(records, tx.tx_id, records.len() as int);
    &&& results != Map::<ShardId, TxResult>::empty()
    &&& results.dom() == reporting_shards(by_id, shard_count, tx)
    &&& all_agree(results)
}

/// Why the results of `tx` are refused.
pub open spec fn tx_results_fault(
    by_id: bool,
    shard_count: u64,
    tx: OrderedTxView,
    records: Seq<TxResultRecord>,
    fault: CheckerFault,
) -> bool {
    let results = results_for(records, tx.tx_id, records.len() as int);
    let active = reporting_shards(by_id, shard_count, tx);
    match fault {
        CheckerFault::MissingResults { tx_id } => {
            tx_id == tx.tx_id && results == Map::<ShardId, TxResult>::empty()
        },
        CheckerFault::ResultShardsMismatch { tx_id, expected, found } => {
            &&& tx_id == tx.tx_id
            &&& results != Map::<ShardId, TxResult>::empty()
            &&& results.dom() != active
            &&& expected@ == active
            &&& found@ == results.dom()
        },
        CheckerFault::ResultDisagreement { tx_id, results: r } => {
            &&& tx_id == tx.tx_id
            &&& results != Map::<ShardId, TxResult>::empty()
            &&& results.dom() == active
            &&& !all_agree(results)
            &&& r@ == results
        },
        _ => false,
    }
}

/// The results of the first `n` transactions are consistent.
pub open spec fn consistent_txs(
    by_id: bool,
    shard_count: u64,
    txs: Seq<OrderedTxView>,
    records: Seq<TxResultRecord>,
    n: int,
) -> bool {
    forall|i: int| 0 <= i < n ==> consistent_tx(by_id, shard_count, #[trigger] txs[i], records)
}

proof fn lemma_results_for(records: Seq<TxResultRecord>, tx_id: TxId, shard: ShardId, n: int)
    requires
        0 <= n <= records.len(),
    ensures
        results_for(records, tx_id, n).contains_key(shard) <==> exists|i: int|
            0 <= i < n && (#[trigger] records[i]).tx_id == tx_id && records[i].shard_id == shard,
    decreases n,
{
    if n > 0 {
        lemma_results_for(records, tx_id, shard, n - 1);
        let record = records[n - 1];
        if record.tx_id == tx_id && record.shard_id == shard {
            assert(records[n - 1].tx_id == tx_id);
        }
    }
}

/// The results by transaction and shard.
fn collect_results(records: &[TxResultRecord]) -> (r: Result<
    OrdMap<TxId, OrdMap<ShardId, TxResult>>,
>)
    ensures
        match r {
            Ok(by_tx) => {
                &&& distinct_results(records@, records@.len() as int)
                &&& forall|tx_id: TxId| #[trigger]
                    by_tx@.contains_key(tx_id) ==> by_tx@[tx_id]@ == results_for(
                        records@,
                        tx_id,
                        records@.len() as int,
                    )
                &&& forall|tx_id: TxId| #[trigger]
                    by_tx@.contains_key(tx_id) <==> results_for(
                        records@,
                        tx_id,
                        records@.len() as int,
                    ) != Map::<ShardId, TxResult>::empty()
            },
            Err(Error::Checker(CheckerFault::DuplicateResult { tx_id, shard_id })) => {
                exists|n: int|
                    0 <= n < records@.len() && #[trigger] distinct_results(records@, n)
                        && records@[n].tx_id == tx_id && records@[n].shard_id == shard_id
                        && results_for(records@, tx_id, n).contains_key(shard_id)
            },
            Err(_) => false,
        },
{
    let mut by_tx: OrdMap<TxId, OrdMap<ShardId, TxResult>> = OrdMap::new();
    let mut i: usize = 0;
    while i < records.len()
        invariant
            i <= records.len(),
            distinct_results(records@, i as int),
            forall|tx_id: TxId| #[trigger]
                by_tx@.contains_key(tx_id) ==> by_tx@[tx_id]@ == results_for(
                    records@,
                    tx_id,
                    i as int,
                ),
            forall|tx_id: TxId| #[trigger]
                by_tx@.contains_key(tx_id) <==> results_for(records@, tx_id, i as int) != Map::<
                    ShardId,
                    TxResult,
                >::empty(),
        decreases records.len() - i,
    {
        let record = records[i];
        let ghost so_far = by_tx@;
        let mut results = match by_tx.remove(&record.tx_id) {
            Some(results) => results,
            None => OrdMap::new(),
        };
        assert(results@ == results_for(records@, record.tx_id, i as int));
        match results.insert(record.shard_id, record.result) {
            Some(_) => {
                return Err(
                    Error::Checker(
                        CheckerFault::DuplicateResult {
                            tx_id: record.tx_id,
                            shard_id: record.shard_id,
                        },
                    ),
                );
            },
            None => {},
        }
        assert(results@.contains_key(record.shard_id));
        let _ = by_tx.insert(record.tx_id, results);
        proof {
            lemma_results_for(records@, record.tx_id, record.shard_id, i as int);
            assert forall|a: int, b: int| 0 <= a < b < i + 1 implies !((
            #[trigger] records@[a]).tx_id == (#[trigger] records@[b]).tx_id && records@[a].shard_id
                == records@[b].shard_id) by {
                if b == i && records@[a].tx_id == record.tx_id && records@[a].shard_id
                    == record.shard_id {
                    assert(results_for(records@, record.tx_id, i as int).contains_key(
                        record.shard_id,
                    ));
                }
            }
            assert(!(Map::<ShardId, TxResult>::empty().contains_key(record.shard_id)));
            assert forall|tx_id: TxId| #[trigger] by_tx@.contains_key(tx_id) <==> results_for(
                records@,
                tx_id,
                i + 1,
            ) != Map::<ShardId, TxResult>::empty() by {
                assert(so_far.contains_key(tx_id) <==> results_for(records@, tx_id, i as int)
                    != Map::<ShardId, TxResult>::empty());
            }
            assert forall|tx_id: TxId| #[trigger] by_tx@.contains_key(tx_id) implies by_tx@[tx_id]@
                == results_for(records@, tx_id, i + 1) by {
                if tx_id != record.tx_id {
                    assert(so_far.contains_key(tx_id));
                }
            }
        }
        i += 1;
    }
    Ok(by_tx)
}

/// Whether all results are the same.
fn results_agree(results: &OrdMap<ShardId, TxResult>) -> (r: bool)
    ensures
        r == all_agree(results@),
{
    let n = results.len();
    if n == 0 {
        assert forall|a: ShardId| !results@.contains_key(a) by {
            if results@.contains_key(a) {
                assert(results.ordered().to_set().contains(a));
            }
        }
        return true;
    }
    let first = *results.value_at(0);
    let mut i: usize = 1;
    while i < n
        invariant
            1 <= i <= n,
            n == results.ordered().len(),
            results@.dom() == results.ordered().to_set(),
            first == results@[results.ordered()[0]],
            forall|j: int| 0 <= j < i ==> results@[#[trigger] results.ordered()[j]] == first,
        decreases n - i,
    {
        if *results.value_at(i) != first {
            proof {
                let a = results.ordered()[0];
                let b = results.ordered()[i as int];
                assert(results.ordered().to_set().contains(a));
                assert(results.ordered().to_set().contains(b));
                assert(results@[a] != results@[b]);
            }
            return false;
        }
        i += 1;
    }
    proof {
        assert forall|a: ShardId| results@.contains_key(a) implies #[trigger] results@[a]
            == first by {
            assert(results.ordered().to_set().contains(a));
            let j = choose|j: int| 0 <= j < results.ordered().len() && results.ordered()[j] == a;
            assert(results@[results.ordered()[j]] == first);
        }
    }
    true
}

/// Checks the results of one transaction.
fn check_tx_results(
    by_id: bool,
    layout: &ShardLayout,
    tx: &OrderedTx,
    by_tx: &OrdMap<TxId, OrdMap<ShardId, TxResult>>,
    records: &[TxResultRecord],
) -> (r: Result<()>)
    requires
        layout.wf(),
        forall|tx_id: TxId| #[trigger]
            by_tx@.contains_key(tx_id) ==> by_tx@[tx_id]@ == results_for(
                records@,
                tx_id,
                records@.len() as int,
            ),
        forall|tx_id: TxId| #[trigger]
            by_tx@.contains_key(tx_id) <==> results_for(records@, tx_id, records@.len() as int)
                != Map::<ShardId, TxResult>::empty(),
    ensures
        match r {
            Ok(_) => consistent_tx(by_id, layout.shard_count, tx@, records@),
            Err(Error::Checker(fault)) => tx_results_fault(
                by_id,
                layout.shard_count,
                tx@,
                records@,
                fault,
            ),
            Err(_) => false,
        },
{
    let expected = if by_id {
        let mut one: OrdSet<ShardId> = OrdSet::new();
        let _ = one.insert(aria_result_shard(tx.tx_id, layout.shard_count));
        one
    } else {
        layout.participants(tx).active
    };
    assert(expected@ =~= reporting_shards(by_id, layout.shard_count, tx@));
    let actual = match by_tx.get(&tx.tx_id) {
        Some(actual) => actual,
        None => {
            return Err(Error::Checker(CheckerFault::MissingResults { tx_id: tx.tx_id }));
        },
    };
    let actual_shards = actual.key_set();
    if !actual_shards.same_as(&expected) {
        return Err(
            Error::Checker(
                CheckerFault::ResultShardsMismatch {
                    tx_id: tx.tx_id,
                    expected,
                    found: actual_shards,
                },
            ),
        );
    }
    if !results_agree(actual) {
        return Err(
            Error::Checker(
                CheckerFault::ResultDisagreement { tx_id: tx.tx_id, results: actual.clone() },
            ),
        );
    }
    Ok(())
}

/// What a check of all results answers.
pub open spec fn results_verdict(
    by_id: bool,
    shard_count: u64,
    txs: Seq<OrderedTxView>,
    records: Seq<TxResultRecord>,
    r: Result<()>,
) -> bool {
    match r {
        Ok(_) => {
            &&& distinct_results(records, records.len() as int)
            &&& consistent_txs(by_id, shard_count, txs, records, txs.len() as int)
        },
        Err(Error::Checker(CheckerFault::DuplicateResult { tx_id, shard_id })) => {
            exists|n: int|
                0 <= n < records.len() && #[trigger] distinct_results(records, n)
                    && records[n].tx_id == tx_id && records[n].shard_id == shard_id && results_for(
                    records,
                    tx_id,
                    n,
                ).contains_key(shard_id)
        },
        Err(Error::Checker(fault)) => {
            &&& distinct_results(records, records.len() as int)
            &&& exists|n: int|
                0 <= n < txs.len() && #[trigger] consistent_txs(
                    by_id,
                    shard_count,
                    txs,
                    records,
                    n,
                ) && tx_results_fault(by_id, shard_count, txs[n], records, fault)
        },
        Err(_) => false,
    }
}

fn check_all_results(
    by_id: bool,
    layout: &ShardLayout,
    batches: &[Batch],
    records: &[TxResultRecord],
) -> (r: Result<()>)
    requires
        layout.wf(),
    ensures
        results_verdict(
            by_id,
            layout.shard_count,
            serial::all_txs(reference::batch_views(batches@)),
            records@,
            r,
        ),
{
    let ghost views = reference::batch_views(batches@);
    let ghost txs = serial::all_txs(views);
    let by_tx = collect_results(records)?;
    let mut i: usize = 0;
    while i < batches.len()
        invariant
            i <= batches.len(),
            layout.wf(),
            views == reference::batch_views(batches@),
            txs == serial::all_txs(views),
            distinct_results(records@, records@.len() as int),
            forall|tx_id: TxId| #[trigger]
                by_tx@.contains_key(tx_id) ==> by_tx@[tx_id]@ == results_for(
                    records@,
                    tx_id,
                    records@.len() as int,
                ),
            forall|tx_id: TxId| #[trigger]
                by_tx@.contains_key(tx_id) <==> results_for(records@, tx_id, records@.len() as int)
                    != Map::<ShardId, TxResult>::empty(),
            consistent_txs(
                by_id,
                layout.shard_count,
                txs,
                records@,
                serial::all_txs(views.take(i as int)).len() as int,
            ),
        decreases batches.len() - i,
    {
        let ghost start = serial::all_txs(views.take(i as int));
        proof {
            let next = views.take(i + 1);
            assert(next.drop_last() =~= views.take(i as int));
            assert(next.last() == views[i as int]);
            reference::lemma_all_txs_prefix(views, i + 1);
            let rest = choose|rest: Seq<OrderedTxView>|
                serial::all_txs(views) == serial::all_txs(next) + rest;
            assert(txs == (start + views[i as int].txs) + rest);
        }
        let mut j: usize = 0;
        while j < batches[i].txs.len()
            invariant
                i < batches.len(),
                j <= batches@[i as int].txs.len(),
                layout.wf(),
                views == reference::batch_views(batches@),
                txs == serial::all_txs(views),
                distinct_results(records@, records@.len() as int),
                forall|tx_id: TxId| #[trigger]
                    by_tx@.contains_key(tx_id) ==> by_tx@[tx_id]@ == results_for(
                        records@,
                        tx_id,
                        records@.len() as int,
                    ),
                forall|tx_id: TxId| #[trigger]
                    by_tx@.contains_key(tx_id) <==> results_for(
                        records@,
                        tx_id,
                        records@.len() as int,
                    ) != Map::<ShardId, TxResult>::empty(),
                consistent_txs(by_id, layout.shard_count, txs, records@, start.len() + j),
                start.len() + batches@[i as int].txs.len() <= txs.len(),
                forall|k: int|
                    0 <= k < batches@[i as int].txs.len() ==> #[trigger] txs[start.len() + k]
                        == batches@[i as int].txs@[k]@,
            decreases batches@[i as int].txs.len() - j,
        {
            let tx = &batches[i].txs[j];
            assert(txs[start.len() + j] == tx@);
            match check_tx_results(by_id, layout, tx, &by_tx, records) {
                Ok(_) => {},
                Err(error) => {
                    assert(consistent_txs(
                        by_id,
                        layout.shard_count,
                        txs,
                        records@,
                        start.len() + j,
                    ));
                    return Err(error);
                },
            }
            j += 1;
        }
        assert(serial::all_txs(views.take(i + 1)).len() == start.len() + j);
        i += 1;
    }
    assert(views.take(i as int) =~= views);
    Ok(())
}

/// Checks that of every transaction exactly the active shards report a result, and
/// the same one.
pub fn assert_tx_results_consistent(
    layout: &ShardLayout,
    batches: &[Batch],
    records: &[TxResultRecord],
) -> (r: Result<()>)
    requires
        layout.wf(),
    ensures
        results_verdict(
            false,
            layout.shard_count,
            serial::all_txs(reference::batch_views(batches@)),
            records@,
            r,
        ),
{
    check_all_results(false, layout, batches, records)
}

/// Checks that of every transaction that ran on a snapshot exactly the shard that its id
/// picks reports a result.
pub fn assert_aria_tx_results_consistent(
    layout: &ShardLayout,
    batches: &[Batch],
    records: &[TxResultRecord],
) -> (r: Result<()>)
    requires
        layout.wf(),
    ensures
        results_verdict(
            true,
            layout.shard_count,
            serial::all_txs(reference::batch_views(batches@)),
            records@,
            r,
        ),
{
    check_all_results(true, layout, batches, records)
}

} // verus!
