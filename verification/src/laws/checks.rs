//! What the checks of a finished run accept, and what they refuse.

use crate::checker::merge;
use crate::checker::reference;
use crate::checker::reports;
use crate::checker::results;
use crate::collections;
use crate::error::{CheckerFault, Error, Result};
use crate::indices;
use crate::laws::orders;
use crate::model::{BatchView, OrderedTxView, ReorderView, ShardId, TxId, TxResult, TxResultRecord};
use crate::path::Path;
use crate::router;
use crate::serial;
use crate::state::State;
use vstd::prelude::*;

verus! {

/// A shard is to report a result of `tx`: the one that its id picks, or one that runs it.
pub open spec fn is_to_report(
    by_id: bool,
    shard_count: u64,
    tx: OrderedTxView,
    shard: ShardId,
) -> bool {
    if by_id {
        shard as int == tx.tx_id as int % shard_count as int
    } else {
        router::participants_of(shard_count, tx.read_set, tx.write_set).active.contains(shard)
    }
}

/// Some record is about this transaction and shard.
pub open spec fn has_record(records: Seq<TxResultRecord>, tx_id: TxId, shard: ShardId) -> bool {
    exists|i: int|
        0 <= i < records.len() && (#[trigger] records[i]).tx_id == tx_id && records[i].shard_id
            == shard
}

/// No two records are about the same transaction and shard; every transaction has a
/// record; those who are to report have one, and no others; and all records of a
/// transaction say the same.
pub open spec fn results_are_good(
    by_id: bool,
    shard_count: u64,
    txs: Seq<OrderedTxView>,
    records: Seq<TxResultRecord>,
) -> bool {
    &&& forall|i: int, j: int|
        0 <= i < j < records.len() ==> !((#[trigger] records[i]).tx_id
            == (#[trigger] records[j]).tx_id && records[i].shard_id == records[j].shard_id)
    &&& forall|n: int|
        0 <= n < txs.len() ==> exists|shard: ShardId|
            has_record(records, (#[trigger] txs[n]).tx_id, shard)
    &&& forall|n: int, shard: ShardId|
        0 <= n < txs.len() ==> (#[trigger] has_record(records, (#[trigger] txs[n]).tx_id, shard)
            <==> is_to_report(by_id, shard_count, txs[n], shard))
    &&& forall|n: int, i: int, j: int|
        0 <= n < txs.len() && 0 <= i < records.len() && 0 <= j < records.len() && (
        #[trigger] records[i]).tx_id == (#[trigger] txs[n]).tx_id && (#[trigger] records[j]).tx_id
            == txs[n].tx_id ==> records[i].result == records[j].result
}

proof fn lemma_results_found(records: Seq<TxResultRecord>, tx_id: TxId, shard: ShardId, n: int)
    requires
        0 <= n <= records.len(),
    ensures
        results::results_for(records, tx_id, n).contains_key(shard) <==> has_record(
            records.take(n),
            tx_id,
            shard,
        ),
    decreases n,
{
    if n > 0 {
        lemma_results_found(records, tx_id, shard, n - 1);
        let last = records[n - 1];
        let before = records.take(n - 1);
        let now = records.take(n);
        if has_record(before, tx_id, shard) {
            let i = choose|i: int|
                0 <= i < before.len() && (#[trigger] before[i]).tx_id == tx_id
                    && before[i].shard_id == shard;
            assert(now[i] == before[i]);
        }
        if has_record(now, tx_id, shard) {
            let i = choose|i: int|
                0 <= i < now.len() && (#[trigger] now[i]).tx_id == tx_id && now[i].shard_id
                    == shard;
            if i < n - 1 {
                assert(now[i] == before[i]);
            }
        }
        if last.tx_id == tx_id && last.shard_id == shard {
            assert(now[n - 1] == last);
        }
    }
}

proof fn lemma_result_kept(records: Seq<TxResultRecord>, i: int, n: int)
    requires
        0 <= i < n <= records.len(),
        results::distinct_results(records, n),
    ensures
        results::results_for(records, records[i].tx_id, n).contains_key(records[i].shard_id),
        results::results_for(records, records[i].tx_id, n)[records[i].shard_id]
            == records[i].result,
    decreases n,
{
    if i < n - 1 {
        lemma_result_kept(records, i, n - 1);
        assert(!(records[i].tx_id == records[n - 1].tx_id && records[i].shard_id == records[n
            - 1].shard_id));
    }
}

proof fn lemma_all_found(records: Seq<TxResultRecord>, tx_id: TxId, shard: ShardId)
    ensures
        results::results_for(records, tx_id, records.len() as int).contains_key(shard)
            <==> has_record(records, tx_id, shard),
{
    lemma_results_found(records, tx_id, shard, records.len() as int);
    assert(records.take(records.len() as int) =~= records);
}

proof fn lemma_tx_consistent(
    by_id: bool,
    shard_count: u64,
    txs: Seq<OrderedTxView>,
    records: Seq<TxResultRecord>,
    n: int,
)
    requires
        shard_count > 0,
        results_are_good(by_id, shard_count, txs, records),
        0 <= n < txs.len(),
    ensures
        results::consistent_tx(by_id, shard_count, txs[n], records),
{
    let tx = txs[n];
    let found = results::results_for(records, tx.tx_id, records.len() as int);
    let expected = results::reporting_shards(by_id, shard_count, tx);
    assert(exists|shard: ShardId| has_record(records, txs[n].tx_id, shard));
    let some = choose|shard: ShardId| has_record(records, tx.tx_id, shard);
    lemma_all_found(records, tx.tx_id, some);
    assert(found.contains_key(some));
    assert forall|shard: ShardId| found.dom().contains(shard) <==> expected.contains(shard) by {
        lemma_all_found(records, tx.tx_id, shard);
        assert(has_record(records, txs[n].tx_id, shard) <==> is_to_report(
            by_id,
            shard_count,
            txs[n],
            shard,
        ));
    }
    assert(found.dom() =~= expected);
    assert forall|a: ShardId, b: ShardId|
        found.contains_key(a) && found.contains_key(b) implies #[trigger] found[a]
        == #[trigger] found[b] by {
        lemma_all_found(records, tx.tx_id, a);
        lemma_all_found(records, tx.tx_id, b);
        let i = choose|i: int|
            0 <= i < records.len() && (#[trigger] records[i]).tx_id == tx.tx_id
                && records[i].shard_id == a;
        let j = choose|j: int|
            0 <= j < records.len() && (#[trigger] records[j]).tx_id == tx.tx_id
                && records[j].shard_id == b;
        lemma_result_kept(records, i, records.len() as int);
        lemma_result_kept(records, j, records.len() as int);
        assert(records[i].tx_id == txs[n].tx_id && records[j].tx_id == txs[n].tx_id);
    }
}

proof fn lemma_accepted_are_good(
    by_id: bool,
    shard_count: u64,
    txs: Seq<OrderedTxView>,
    records: Seq<TxResultRecord>,
)
    requires
        shard_count > 0,
        results::results_verdict(by_id, shard_count, txs, records, Ok(())),
    ensures
        results_are_good(by_id, shard_count, txs, records),
{
    assert forall|n: int| 0 <= n < txs.len() implies exists|shard: ShardId|
        has_record(records, (#[trigger] txs[n]).tx_id, shard) by {
        assert(results::consistent_tx(by_id, shard_count, txs[n], records));
        let found = results::results_for(records, txs[n].tx_id, records.len() as int);
        if forall|shard: ShardId| !found.contains_key(shard) {
            assert(found =~= Map::<ShardId, TxResult>::empty());
        }
        let shard = choose|shard: ShardId| found.contains_key(shard);
        lemma_all_found(records, txs[n].tx_id, shard);
    }
    assert forall|n: int, shard: ShardId| 0 <= n < txs.len() implies (#[trigger] has_record(
        records,
        (#[trigger] txs[n]).tx_id,
        shard,
    ) <==> is_to_report(by_id, shard_count, txs[n], shard)) by {
        assert(results::consistent_tx(by_id, shard_count, txs[n], records));
        let found = results::results_for(records, txs[n].tx_id, records.len() as int);
        lemma_all_found(records, txs[n].tx_id, shard);
        assert(found.dom().contains(shard) == results::reporting_shards(
            by_id,
            shard_count,
            txs[n],
        ).contains(shard));
    }
    assert forall|n: int, i: int, j: int|
        0 <= n < txs.len() && 0 <= i < records.len() && 0 <= j < records.len() && (
        #[trigger] records[i]).tx_id == (#[trigger] txs[n]).tx_id && (#[trigger] records[j]).tx_id
            == txs[n].tx_id implies records[i].result == records[j].result by {
        assert(results::consistent_tx(by_id, shard_count, txs[n], records));
        let found = results::results_for(records, txs[n].tx_id, records.len() as int);
        lemma_result_kept(records, i, records.len() as int);
        lemma_result_kept(records, j, records.len() as int);
        assert(found[records[i].shard_id] == found[records[j].shard_id]);
    }
}

/// The results of the shards are accepted if and only if they are good.
pub proof fn lemma_results_checked(
    by_id: bool,
    shard_count: u64,
    txs: Seq<OrderedTxView>,
    records: Seq<TxResultRecord>,
    r: Result<()>,
)
    requires
        shard_count > 0,
        results::results_verdict(by_id, shard_count, txs, records, r),
    ensures
        r is Ok <==> results_are_good(by_id, shard_count, txs, records),
{
    match r {
        Ok(_) => {
            lemma_accepted_are_good(by_id, shard_count, txs, records);
        },
        Err(Error::Checker(CheckerFault::DuplicateResult { tx_id, shard_id })) => {
            let n = choose|n: int|
                0 <= n < records.len() && #[trigger] results::distinct_results(records, n)
                    && records[n].tx_id == tx_id && records[n].shard_id == shard_id
                    && results::results_for(records, tx_id, n).contains_key(shard_id);
            lemma_results_found(records, tx_id, shard_id, n);
            let before = records.take(n);
            let i = choose|i: int|
                0 <= i < before.len() && (#[trigger] before[i]).tx_id == tx_id
                    && before[i].shard_id == shard_id;
            assert(before[i] == records[i]);
            assert(records[i].tx_id == records[n].tx_id);
        },
        Err(Error::Checker(fault)) => {
            let n = choose|n: int|
                0 <= n < txs.len() && #[trigger] results::consistent_txs(
                    by_id,
                    shard_count,
                    txs,
                    records,
                    n,
                ) && results::tx_results_fault(by_id, shard_count, txs[n], records, fault);
            if results_are_good(by_id, shard_count, txs, records) {
                lemma_tx_consistent(by_id, shard_count, txs, records, n);
            }
        },
        Err(_) => {},
    }
}

/// What is said where the results are refused: two records of the same shard about the
/// same transaction; a transaction of which nobody reports; one of which others report
/// than are to, with those who are to and those who do; or one of which not all say the
/// same, with what each says.
pub proof fn lemma_results_refused(
    by_id: bool,
    shard_count: u64,
    txs: Seq<OrderedTxView>,
    records: Seq<TxResultRecord>,
    r: Result<()>,
    shard: ShardId,
    i: int,
)
    requires
        shard_count > 0,
        results::results_verdict(by_id, shard_count, txs, records, r),
        0 <= i < records.len(),
    ensures
        match r {
            Ok(_) => true,
            Err(Error::Checker(CheckerFault::DuplicateResult { tx_id, shard_id })) => {
                exists|a: int, b: int|
                    0 <= a < b < records.len() && (#[trigger] records[a]).tx_id == tx_id
                        && records[a].shard_id == shard_id && (#[trigger] records[b]).tx_id == tx_id
                        && records[b].shard_id == shard_id
            },
            Err(Error::Checker(CheckerFault::MissingResults { tx_id })) => {
                &&& exists|n: int| 0 <= n < txs.len() && (#[trigger] txs[n]).tx_id == tx_id
                &&& records[i].tx_id != tx_id
            },
            Err(
                Error::Checker(CheckerFault::ResultShardsMismatch { tx_id, expected, found }),
            ) => {
                &&& exists|n: int|
                    0 <= n < txs.len() && (#[trigger] txs[n]).tx_id == tx_id && (
                    expected@.contains(shard) <==> is_to_report(by_id, shard_count, txs[n], shard))
                &&& found@.contains(shard) <==> has_record(records, tx_id, shard)
                &&& expected@ != found@
            },
            Err(Error::Checker(CheckerFault::ResultDisagreement { tx_id, results: said })) => {
                &&& exists|n: int| 0 <= n < txs.len() && (#[trigger] txs[n]).tx_id == tx_id
                &&& said@.contains_key(shard) <==> has_record(records, tx_id, shard)
                &&& records[i].tx_id == tx_id ==> said@[records[i].shard_id] == records[i].result
                &&& exists|a: ShardId, b: ShardId|
                    said@.contains_key(a) && said@.contains_key(b) && #[trigger] said@[a]
                        != #[trigger] said@[b]
            },
            Err(_) => false,
        },
{
    match r {
        Ok(_) => {},
        Err(Error::Checker(CheckerFault::DuplicateResult { tx_id, shard_id })) => {
            let n = choose|n: int|
                0 <= n < records.len() && #[trigger] results::distinct_results(records, n)
                    && records[n].tx_id == tx_id && records[n].shard_id == shard_id
                    && results::results_for(records, tx_id, n).contains_key(shard_id);
            lemma_results_found(records, tx_id, shard_id, n);
            let before = records.take(n);
            let a = choose|a: int|
                0 <= a < before.len() && (#[trigger] before[a]).tx_id == tx_id
                    && before[a].shard_id == shard_id;
            assert(before[a] == records[a]);
            assert(records[a].tx_id == tx_id && records[n].tx_id == tx_id);
        },
        Err(Error::Checker(fault)) => {
            let n = choose|n: int|
                0 <= n < txs.len() && #[trigger] results::consistent_txs(
                    by_id,
                    shard_count,
                    txs,
                    records,
                    n,
                ) && results::tx_results_fault(by_id, shard_count, txs[n], records, fault);
            let found = results::results_for(records, txs[n].tx_id, records.len() as int);
            lemma_all_found(records, txs[n].tx_id, shard);
            lemma_all_found(records, records[i].tx_id, records[i].shard_id);
            assert(has_record(records, records[i].tx_id, records[i].shard_id));
            lemma_result_kept(records, i, records.len() as int);
            assert(found.dom().contains(shard) == found.contains_key(shard));
            assert(results::reporting_shards(by_id, shard_count, txs[n]).contains(shard)
                <==> is_to_report(by_id, shard_count, txs[n], shard));
        },
        Err(_) => {},
    }
}

/// Every key of a dump lives on the shard that dumped it, and no key is in two dumps.
pub open spec fn dumps_are_good(shard_count: u64, dumps: Seq<(ShardId, State)>) -> bool {
    &&& forall|s: int, key: Path|
        0 <= s < dumps.len() && #[trigger] dumps[s].1.contains_key(key) ==> router::shard_of(
            shard_count,
            key,
        ) == dumps[s].0
    &&& forall|s: int, t: int, key: Path|
        0 <= s < t < dumps.len() ==> !(#[trigger] dumps[s].1.contains_key(key)
            && #[trigger] dumps[t].1.contains_key(key))
}

proof fn lemma_merged(dumps: Seq<(ShardId, State)>, n: int, key: Path)
    requires
        0 <= n <= dumps.len(),
    ensures
        merge::merged(dumps, n).contains_key(key) <==> exists|s: int|
            0 <= s < n && (#[trigger] dumps[s]).1.contains_key(key),
        forall|s: int|
            0 <= s < n && (#[trigger] dumps[s]).1.contains_key(key) && (forall|t: int|
                s < t < n ==> !(#[trigger] dumps[t]).1.contains_key(key)) ==> merge::merged(
                dumps,
                n,
            )[key] == dumps[s].1[key],
    decreases n,
{
    if n > 0 {
        lemma_merged(dumps, n - 1, key);
        if dumps[n - 1].1.contains_key(key) {
            assert(merge::merged(dumps, n).contains_key(key));
        }
        assert forall|s: int|
            0 <= s < n && (#[trigger] dumps[s]).1.contains_key(key) && (forall|t: int|
                s < t < n ==> !(#[trigger] dumps[t]).1.contains_key(key)) implies merge::merged(
            dumps,
            n,
        )[key] == dumps[s].1[key] by {
            if s < n - 1 {
                assert(!dumps[n - 1].1.contains_key(key));
            }
        }
    }
}

/// The dumps of the shards are put together if and only if they are good, and then hold
/// what some dump holds, and nothing else.
pub proof fn lemma_dumps_merged(shard_count: u64, dumps: Seq<(ShardId, State)>, error: Error)
    ensures
        merge::all_placed(shard_count, dumps, dumps.len() as int) <==> dumps_are_good(
            shard_count,
            dumps,
        ),
        merge::merge_error(shard_count, dumps, error) ==> !dumps_are_good(shard_count, dumps),
        dumps_are_good(shard_count, dumps) ==> {
            let whole = merge::merged(dumps, dumps.len() as int);
            &&& forall|key: Path| #[trigger]
                whole.contains_key(key) <==> exists|s: int|
                    0 <= s < dumps.len() && (#[trigger] dumps[s]).1.contains_key(key)
            &&& forall|s: int, key: Path|
                0 <= s < dumps.len() && #[trigger] dumps[s].1.contains_key(key) ==> whole[key]
                    == dumps[s].1[key]
        },
{
    let n = dumps.len() as int;
    if merge::all_placed(shard_count, dumps, n) {
        assert forall|s: int, t: int, key: Path| 0 <= s < t < n implies !(
        #[trigger] dumps[s].1.contains_key(key) && #[trigger] dumps[t].1.contains_key(key)) by {
            if dumps[s].1.contains_key(key) && dumps[t].1.contains_key(key) {
                assert(merge::well_placed(shard_count, dumps, t, key));
                assert(merge::dumped(dumps, key, t));
            }
        }
        assert forall|s: int, key: Path|
            0 <= s < n && #[trigger] dumps[s].1.contains_key(key) implies router::shard_of(
            shard_count,
            key,
        ) == dumps[s].0 by {
            assert(merge::well_placed(shard_count, dumps, s, key));
        }
    }
    if dumps_are_good(shard_count, dumps) {
        assert forall|s: int, key: Path|
            0 <= s < n && #[trigger] dumps[s].1.contains_key(key) implies merge::well_placed(
            shard_count,
            dumps,
            s,
            key,
        ) by {
            if merge::dumped(dumps, key, s) {
                let t = choose|t: int| 0 <= t < s && (#[trigger] dumps[t]).1.contains_key(key);
                assert(dumps[t].1.contains_key(key) && dumps[s].1.contains_key(key));
            }
        }
        let whole = merge::merged(dumps, n);
        assert forall|key: Path| #[trigger] whole.contains_key(key) <==> exists|s: int|
            0 <= s < dumps.len() && (#[trigger] dumps[s]).1.contains_key(key) by {
            lemma_merged(dumps, n, key);
        }
        assert forall|s: int, key: Path|
            0 <= s < dumps.len() && #[trigger] dumps[s].1.contains_key(key) implies whole[key]
            == dumps[s].1[key] by {
            lemma_merged(dumps, n, key);
            assert forall|t: int| s < t < n implies !(#[trigger] dumps[t]).1.contains_key(key) by {
                assert(!(dumps[s].1.contains_key(key) && dumps[t].1.contains_key(key)));
            }
        }
        if merge::merge_error(shard_count, dumps, error) {
            match error {
                Error::Checker(CheckerFault::KeyOnWrongShard { key, shard_id, owner }) => {
                    let s = choose|s: int| #[trigger]
                        merge::wrong_shard_at(shard_count, dumps, s, key@, shard_id, owner);
                    assert(dumps[s].1.contains_key(key@));
                },
                Error::Checker(CheckerFault::KeyOnTwoShards { key }) => {
                    let s = choose|s: int| #[trigger]
                        merge::two_shards_at(shard_count, dumps, s, key@);
                    assert(dumps[s].1.contains_key(key@));
                },
                _ => {},
            }
        }
    }
}

/// An order fits a batch if and only if it is about it and names each place once: first
/// what did not fall back, then what did.
pub proof fn lemma_record_fits(batch: BatchView, record: ReorderView)
    requires
        batch.txs.len() <= usize::MAX,
    ensures
        reference::valid_record(batch, record) <==> {
            let order = record.successes + record.fallbacks;
            &&& record.batch_id == batch.batch_id
            &&& order.no_duplicates()
            &&& forall|i: usize| #[trigger] order.contains(i) <==> i < batch.txs.len()
        },
        reference::valid_record(batch, record) ==> {
            let order = record.successes + record.fallbacks;
            let txs = reference::reordered(batch, record).txs;
            &&& txs.len() == batch.txs.len()
            &&& forall|p: int|
                0 <= p < txs.len() ==> #[trigger] txs[p] == batch.txs[order[p] as int]
        },
{
    let order = record.successes + record.fallbacks;
    assert(order == reference::order_of(record));
    if reference::valid_record(batch, record) {
        assert forall|i: usize| #[trigger] order.contains(i) implies i < batch.txs.len() by {
            let p = choose|p: int| 0 <= p < order.len() && order[p] == i;
            assert(order[p] < batch.txs.len());
        }
        assert forall|p: int, q: int|
            0 <= p < order.len() && 0 <= q < order.len() && p != q implies order[p]
            != order[q] by {
            if p < q {
                assert(order[p] != order[q]);
            } else {
                assert(order[q] != order[p]);
            }
        }
        order.unique_seq_to_set();
        orders::lemma_indices_finite(batch.txs.len());
        assert(order.to_set() =~= indices::all_indices(batch.txs.len()));
    }
    if record.batch_id == batch.batch_id && order.no_duplicates() && (forall|i: usize| #[trigger]
        order.contains(i) <==> i < batch.txs.len()) {
        assert forall|p: int| 0 <= p < order.len() implies #[trigger] order[p]
            < batch.txs.len() by {
            assert(order.contains(order[p]));
        }
    }
}

/// The order that is made of the reports of all shards: a transaction comes last if some
/// shard says so, and both parts are in batch order.
pub proof fn lemma_union_order(
    batch: BatchView,
    shards: Seq<(ShardId, Seq<ReorderView>)>,
    index: usize,
)
    requires
        batch.txs.len() <= usize::MAX,
        forall|s: int, p: int, i: usize|
            0 <= s < shards.len() && 0 <= p < (#[trigger] shards[s]).1.len() && (
            #[trigger] shards[s].1[p]).batch_id == batch.batch_id
                && #[trigger] shards[s].1[p].fallbacks.contains(i) ==> i < batch.txs.len(),
    ensures
        ({
            let order = reports::union_order(batch, shards);
            let said = exists|s: int, p: int|
                0 <= s < shards.len() && 0 <= p < (#[trigger] shards[s]).1.len() && (
                #[trigger] shards[s].1[p]).batch_id == batch.batch_id
                    && shards[s].1[p].fallbacks.contains(index);
            &&& order.batch_id == batch.batch_id
            &&& order.fallbacks.contains(index) <==> said
            &&& order.successes.contains(index) <==> index < batch.txs.len() && !said
            &&& forall|a: int, b: int|
                0 <= a < b < order.successes.len() ==> order.successes[a] < order.successes[b]
            &&& forall|a: int, b: int|
                0 <= a < b < order.fallbacks.len() ==> order.fallbacks[a] < order.fallbacks[b]
        }),
{
    let all = indices::all_indices(batch.txs.len());
    let fallen = reports::fallback_union(shards, batch.batch_id, shards.len() as int);
    assert forall|i: usize| fallen.contains(i) implies all.contains(i) by {
        let s = choose|s: int|
            0 <= s < shards.len() && reports::falls_back_in(
                (#[trigger] shards[s]).1,
                batch.batch_id,
                i,
                shards[s].1.len() as int,
            );
        let records = shards[s].1;
        let p = choose|p: int|
            0 <= p < records.len() && (#[trigger] records[p]).batch_id == batch.batch_id
                && records[p].fallbacks.contains(i);
        assert(shards[s].1[p].fallbacks.contains(i));
    }
    orders::lemma_indices_finite(batch.txs.len());
    vstd::set_lib::lemma_set_subset_finite::<usize>(all, fallen);
    vstd::set_lib::lemma_set_subset_finite::<usize>(all, all.difference(fallen));
    collections::lemma_sorted_of_finite::<usize>(fallen);
    collections::lemma_sorted_of_finite::<usize>(all.difference(fallen));
    let order = reports::union_order(batch, shards);
    assert(order.fallbacks.to_set().contains(index) == order.fallbacks.contains(index));
    assert(order.successes.to_set().contains(index) == order.successes.contains(index));
    if fallen.contains(index) {
        let s = choose|s: int|
            0 <= s < shards.len() && reports::falls_back_in(
                (#[trigger] shards[s]).1,
                batch.batch_id,
                index,
                shards[s].1.len() as int,
            );
        let records = shards[s].1;
        let p = choose|p: int|
            0 <= p < records.len() && (#[trigger] records[p]).batch_id == batch.batch_id
                && records[p].fallbacks.contains(index);
        assert(shards[s].1[p].batch_id == batch.batch_id);
    }
    if exists|s: int, p: int|
        0 <= s < shards.len() && 0 <= p < (#[trigger] shards[s]).1.len() && (
        #[trigger] shards[s].1[p]).batch_id == batch.batch_id && shards[s].1[p].fallbacks.contains(
            index,
        ) {
        let (s, p) = choose|s: int, p: int|
            0 <= s < shards.len() && 0 <= p < (#[trigger] shards[s]).1.len() && (
            #[trigger] shards[s].1[p]).batch_id == batch.batch_id
                && shards[s].1[p].fallbacks.contains(index);
        let records = shards[s].1;
        assert(records[p].fallbacks.contains(index));
        assert(reports::falls_back_in(records, batch.batch_id, index, records.len() as int));
    }
    assert forall|a: int, b: int|
        0 <= a < b < order.successes.len() implies order.successes[a] < order.successes[b] by {
        assert(<usize as collections::SortKey>::before(order.successes[a], order.successes[b]));
    }
    assert forall|a: int, b: int|
        0 <= a < b < order.fallbacks.len() implies order.fallbacks[a] < order.fallbacks[b] by {
        assert(<usize as collections::SortKey>::before(order.fallbacks[a], order.fallbacks[b]));
    }
}

/// The record fits some batch.
pub open spec fn fits_one(batches: Seq<BatchView>, record: ReorderView) -> bool {
    exists|i: int| 0 <= i < batches.len() && reference::valid_record(#[trigger] batches[i], record)
}

/// Some record is about the batch.
pub open spec fn has_order(records: Seq<ReorderView>, batch: BatchView) -> bool {
    exists|p: int| 0 <= p < records.len() && (#[trigger] records[p]).batch_id == batch.batch_id
}

/// There is one record for each batch, about that batch and fitting it, and no other.
pub open spec fn report_is_good(batches: Seq<BatchView>, records: Seq<ReorderView>) -> bool {
    &&& forall|p: int| 0 <= p < records.len() ==> #[trigger] fits_one(batches, records[p])
    &&& forall|p: int, q: int|
        0 <= p < q < records.len() ==> (#[trigger] records[p]).batch_id != (
        #[trigger] records[q]).batch_id
    &&& forall|i: int| 0 <= i < batches.len() ==> #[trigger] has_order(records, batches[i])
}

/// A report is taken if and only if it is good.
pub proof fn lemma_report_is_good(batches: Seq<BatchView>, records: Seq<ReorderView>)
    requires
        forall|i: int, j: int|
            0 <= i < j < batches.len() ==> (#[trigger] batches[i]).batch_id != (
            #[trigger] batches[j]).batch_id,
    ensures
        reports::good_report(batches, records) <==> report_is_good(batches, records),
{
    if reports::good_report(batches, records) {
        assert forall|p: int| 0 <= p < records.len() implies #[trigger] fits_one(
            batches,
            records[p],
        ) by {
            assert(reports::good_record(batches, records[p]));
            let i = reports::batch_at(batches, records[p].batch_id);
            assert(reference::valid_record(batches[i], records[p]));
        }
        assert forall|i: int| 0 <= i < batches.len() implies #[trigger] has_order(
            records,
            batches[i],
        ) by {
            assert(reports::known_batch(batches, batches[i].batch_id));
            assert(reports::reported(records, batches[i].batch_id, records.len() as int));
        }
    }
    if report_is_good(batches, records) {
        assert forall|p: int| 0 <= p < records.len() implies reports::good_record(
            batches,
            #[trigger] records[p],
        ) by {
            assert(fits_one(batches, records[p]));
            let i = choose|i: int|
                0 <= i < batches.len() && reference::valid_record(
                    #[trigger] batches[i],
                    records[p],
                );
            assert(batches[i].batch_id == records[p].batch_id);
            let k = reports::batch_at(batches, records[p].batch_id);
            assert(batches[k].batch_id == records[p].batch_id);
            if k < i {
                assert(batches[k].batch_id != batches[i].batch_id);
            } else if i < k {
                assert(batches[i].batch_id != batches[k].batch_id);
            }
        }
        assert forall|id: u64| #[trigger] reports::known_batch(
            batches,
            id,
        ) implies reports::reported(records, id, records.len() as int) by {
            let i = choose|i: int| 0 <= i < batches.len() && (#[trigger] batches[i]).batch_id == id;
            assert(has_order(records, batches[i]));
        }
    }
}

/// Batches run one after the other, each from its first transaction to its last.
pub proof fn lemma_batches_in_order(batches: Seq<BatchView>, last: BatchView)
    ensures
        serial::all_txs(Seq::empty()) == Seq::<OrderedTxView>::empty(),
        serial::all_txs(batches.push(last)) == serial::all_txs(batches) + last.txs,
{
    assert(batches.push(last).drop_last() =~= batches);
}

} // verus!
