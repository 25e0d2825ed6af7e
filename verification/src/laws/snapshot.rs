//! Running every transaction on the state before the batch: what stands is what running
//! in order gives.

use crate::collections;
use crate::collections::SortKey;
use crate::engine::aria;
use crate::engine::aria::coordinator;
use crate::engine::aria::run::AriaTxView;
use crate::engine::aria::state as known;
use crate::engine::aria::state::AriaView;
use crate::engine::reorder;
use crate::executor;
use crate::laws::operations;
use crate::laws::shards;
use crate::laws::speculation;
use crate::model::{OrderedTxView, ShardId, TxOutputView, WriteOpView};
use crate::path::Path;
use crate::router;
use crate::serial;
use crate::state;
use crate::state::State;
use vstd::prelude::*;

verus! {

/// What a transaction does on the state before the batch, whatever its key sets say.
pub open spec fn output_on(s: State, tx: OrderedTxView) -> TxOutputView {
    executor::execute(tx.op, state::reads_of(s, executor::read_keys(tx.op)))
}

/// A transaction uses a key: it reads it or writes it.
pub open spec fn uses(s: State, tx: OrderedTxView, key: Path) -> bool {
    executor::read_keys(tx.op).contains(key) || state::write_targets(
        output_on(s, tx).writes,
    ).contains(key)
}

/// Transaction `i` writes a key that the later `j` uses.
pub open spec fn spoils(s: State, txs: Seq<OrderedTxView>, i: int, j: int) -> bool {
    0 <= i < j < txs.len() && exists|key: Path|
        state::write_targets(output_on(s, txs[i]).writes).contains(key) && #[trigger] uses(
            s,
            txs[j],
            key,
        )
}

/// The transactions that do not stand: an earlier one writes what they use.
pub open spec fn spoiled(s: State, txs: Seq<OrderedTxView>) -> Set<usize> {
    Set::new(|j: usize| exists|i: int| #[trigger] spoils(s, txs, i, j as int))
}

/// `s` with the writes of the first `n` transactions made, but for those in `failed`.
pub open spec fn written(s: State, txs: Seq<OrderedTxView>, failed: Set<usize>, n: int) -> State
    decreases n,
{
    if n <= 0 {
        s
    } else {
        let before = written(s, txs, failed, n - 1);
        if failed.contains((n - 1) as usize) {
            before
        } else {
            state::apply_writes(before, output_on(s, txs[n - 1]).writes)
        }
    }
}

/// Nothing that a transaction which stands uses is written before its place.
proof fn lemma_unspoiled(
    s: State,
    txs: Seq<OrderedTxView>,
    failed: Set<usize>,
    n: int,
    j: int,
    key: Path,
)
    requires
        0 <= n <= j < txs.len(),
        txs.len() <= usize::MAX,
        spoiled(s, txs).subset_of(failed),
        !failed.contains(j as usize),
        uses(s, txs[j], key),
    ensures
        state::value_in(written(s, txs, failed, n), key) == state::value_in(s, key),
    decreases n,
{
    if n > 0 {
        let i = n - 1;
        lemma_unspoiled(s, txs, failed, i, j, key);
        let writes = output_on(s, txs[i]).writes;
        if state::write_targets(writes).contains(key) {
            assert(spoils(s, txs, i, j));
            assert(spoiled(s, txs).contains(j as usize));
        }
        state::lemma_writes_frame(written(s, txs, failed, i), writes, key);
    }
}

/// `txs` with the key sets of their operations.
pub open spec fn derived(txs: Seq<OrderedTxView>) -> Seq<OrderedTxView> {
    txs.map_values(|tx: OrderedTxView| reorder::with_derived_sets(tx))
}

/// Where all that is spoiled is left out, making the writes of the rest leads to the
/// state to which the rest leads in order, and each of the rest has there the result
/// that it had on the state before the batch.
pub proof fn lemma_snapshot_is_serial(
    s: State,
    txs: Seq<OrderedTxView>,
    failed: Set<usize>,
    n: int,
)
    requires
        0 <= n <= txs.len(),
        txs.len() <= usize::MAX,
        spoiled(s, txs).subset_of(failed),
    ensures
        written(s, txs, failed, n) == serial::run_txs(
            s,
            speculation::kept(derived(txs), failed, n),
        ),
        forall|j: int|
            0 <= j < n && !failed.contains(j as usize) ==> #[trigger] output_on(
                serial::run_txs(s, speculation::kept(derived(txs), failed, j)),
                txs[j],
            ) == output_on(s, txs[j]),
    decreases n,
{
    if n > 0 {
        let j = n - 1;
        lemma_snapshot_is_serial(s, txs, failed, j);
        if !failed.contains(j as usize) {
            let here = written(s, txs, failed, j);
            let tx = reorder::with_derived_sets(txs[j]);
            assert forall|k: Path| #[trigger] tx.read_set.contains(k) implies state::value_in(
                here,
                k,
            ) == state::value_in(s, k) by {
                assert(uses(s, txs[j], k));
                lemma_unspoiled(s, txs, failed, j, j, k);
            }
            operations::lemma_tx_reads_decide(here, s, tx);
            let before = speculation::kept(derived(txs), failed, j);
            assert(derived(txs)[j] == tx);
            assert(before.push(tx).drop_last() =~= before);
        }
    }
}

/// What a shard knows of a batch that every transaction has run: who read and who wrote
/// each of its keys.
pub open spec fn knows_all(
    v: AriaView,
    s: State,
    txs: Seq<OrderedTxView>,
    shard_count: u64,
    shard: ShardId,
) -> bool {
    &&& forall|key: Path, j: usize| #[trigger]
        known::users_of(v.readers, key).contains(j) <==> {
            &&& j < txs.len()
            &&& router::shard_of(shard_count, key) == shard
            &&& executor::read_keys(txs[j as int].op).contains(key)
        }
    &&& forall|key: Path, j: usize| #[trigger]
        known::users_of(v.writers, key).contains(j) <==> {
            &&& j < txs.len()
            &&& router::shard_of(shard_count, key) == shard
            &&& state::write_targets(output_on(s, txs[j as int]).writes).contains(key)
        }
}

/// What all shards find out together is what is spoiled: a transaction is spoiled if and
/// only if some shard sees it lose one of its keys.
pub proof fn lemma_shards_find_spoiled(
    views: Seq<AriaView>,
    s: State,
    txs: Seq<OrderedTxView>,
    shard_count: u64,
    j: usize,
)
    requires
        shard_count > 0,
        views.len() == shard_count,
        txs.len() <= usize::MAX,
        forall|i: int|
            0 <= i < views.len() ==> knows_all(
                #[trigger] views[i],
                s,
                txs,
                shard_count,
                i as ShardId,
            ),
    ensures
        spoiled(s, txs).contains(j) <==> exists|i: int|
            0 <= i < views.len() && (#[trigger] views[i]).local_failures().contains(j),
{
    if spoiled(s, txs).contains(j) {
        let i = choose|i: int| #[trigger] spoils(s, txs, i, j as int);
        let key = choose|key: Path|
            state::write_targets(output_on(s, txs[i]).writes).contains(key) && #[trigger] uses(
                s,
                txs[j as int],
                key,
            );
        let shard = router::shard_of(shard_count, key);
        let v = views[shard as int];
        assert(knows_all(v, s, txs, shard_count, shard));
        assert(known::users_of(v.writers, key).contains(i as usize));
        assert(known::users_of(v.writers, key).contains(j) || known::users_of(
            v.readers,
            key,
        ).contains(j));
        assert(v.loses(key, j));
        assert(v.local_failures().contains(j));
    }
    if exists|i: int| 0 <= i < views.len() && (#[trigger] views[i]).local_failures().contains(j) {
        let i = choose|i: int|
            0 <= i < views.len() && (#[trigger] views[i]).local_failures().contains(j);
        let v = views[i];
        let key = choose|key: Path| #[trigger] v.loses(key, j);
        let w = choose|w: usize| w < j && #[trigger] known::users_of(v.writers, key).contains(w);
        assert(knows_all(v, s, txs, shard_count, i as ShardId));
        assert(uses(s, txs[j as int], key));
        assert(spoils(s, txs, w as int, j as int));
    }
}

/// A shard has been told what every transaction is to do there.
pub open spec fn told_all(
    staged: Map<usize, known::StagedView>,
    s: State,
    txs: Seq<OrderedTxView>,
    shard_count: u64,
    shard: ShardId,
) -> bool {
    forall|j: usize|
        #![trigger staged.contains_key(j)]
        {
            &&& staged.contains_key(j) <==> j < txs.len() && coordinator::stage_targets(
                output_on(s, txs[j as int]).writes,
                txs[j as int].tx_id,
                shard_count,
            ).contains(shard)
            &&& staged.contains_key(j) ==> staged[j].local_writes == executor::local_writes(
                output_on(s, txs[j as int]).writes,
                shard,
                shard_count,
            )
        }
}

/// A shard that is not told of a transaction has nothing to write for it.
proof fn lemma_untold(writes: Seq<WriteOpView>, tx_id: u64, shard_count: u64, shard: ShardId)
    requires
        !coordinator::stage_targets(writes, tx_id, shard_count).contains(shard),
    ensures
        executor::local_writes(writes, shard, shard_count) == Seq::<WriteOpView>::empty(),
    decreases writes.len(),
{
    reveal(Seq::filter);
    if writes.len() > 0 {
        let front = writes.drop_last();
        let last = writes.last();
        let targets = state::write_targets(writes);
        assert(writes[writes.len() - 1].target() == last.target());
        assert(targets.contains(last.target()));
        assert(router::shards_of(shard_count, targets).contains(
            router::shard_of(shard_count, last.target()),
        ));
        assert forall|x: ShardId| router::shards_of(
            shard_count,
            state::write_targets(front),
        ).contains(x) implies router::shards_of(shard_count, targets).contains(x) by {
            let k = choose|k: Path|
                state::write_targets(front).contains(k) && router::shard_of(shard_count, k) == x;
            let i = choose|i: int| 0 <= i < front.len() && (#[trigger] front[i]).target() == k;
            assert(writes[i].target() == k);
            assert(targets.contains(k));
        }
        lemma_untold(front, tx_id, shard_count, shard);
    }
}

/// Only the front of an order matters for what its front installs.
proof fn lemma_installed_front(
    s: State,
    staged: Map<usize, known::StagedView>,
    a: Seq<usize>,
    b: Seq<usize>,
    failed: Set<usize>,
    n: int,
)
    requires
        n <= a.len(),
        n <= b.len(),
        forall|i: int| 0 <= i < n ==> #[trigger] a[i] == b[i],
    ensures
        known::installed(s, staged, a, failed, n) == known::installed(s, staged, b, failed, n),
    decreases n,
{
    if n > 0 {
        lemma_installed_front(s, staged, a, b, failed, n - 1);
        assert(a[n - 1] == b[n - 1]);
    }
}

/// The places below `n` of which a shard was told.
spec fn told_below(staged: Map<usize, known::StagedView>, n: int) -> Set<usize> {
    staged.dom().filter(|j: usize| j < n)
}

proof fn lemma_install_below(
    s: State,
    txs: Seq<OrderedTxView>,
    staged: Map<usize, known::StagedView>,
    failed: Set<usize>,
    shard_count: u64,
    shard: ShardId,
    n: int,
)
    requires
        0 <= n <= txs.len(),
        txs.len() <= usize::MAX,
        told_all(staged, s, txs, shard_count, shard),
    ensures
        told_below(staged, n).finite(),
        known::installed(
            shards::held_by(s, shard_count, shard),
            staged,
            collections::sorted::<usize>(told_below(staged, n)),
            failed,
            collections::sorted::<usize>(told_below(staged, n)).len() as int,
        ) == shards::held_by(written(s, txs, failed, n), shard_count, shard),
    decreases n,
{
    let base = shards::held_by(s, shard_count, shard);
    let below = told_below(staged, n);
    if n == 0 {
        assert(below =~= Set::<usize>::empty());
        collections::lemma_sorted::<usize>(Seq::empty());
        assert(Seq::<usize>::empty().to_set() =~= below);
    } else {
        let j = n - 1;
        let place = j as usize;
        let before = told_below(staged, j);
        lemma_install_below(s, txs, staged, failed, shard_count, shard, j);
        let order = collections::sorted::<usize>(before);
        let writes = output_on(s, txs[j]).writes;
        let whole = written(s, txs, failed, j);
        shards::lemma_writes_on_shard(whole, writes, shard_count, shard);
        if staged.contains_key(place) {
            assert(below =~= before.insert(place));
            assert forall|i: usize| #[trigger] before.contains(i) implies <usize as SortKey>::before(
                i,
                place,
            ) by {}
            collections::lemma_sorted_push::<usize>(before, place);
            let next = order.push(place);
            lemma_installed_front(base, staged, order, next, failed, order.len() as int);
        } else {
            assert(below =~= before);
            lemma_untold(writes, txs[j].tx_id, shard_count, shard);
            assert(state::apply_writes(
                shards::held_by(whole, shard_count, shard),
                executor::local_writes(writes, shard, shard_count),
            ) == shards::held_by(whole, shard_count, shard));
        }
    }
}

/// Every shard that installs what it was told, but for what is spoiled, holds its part of
/// the state to which the transactions that stand lead in order.
pub proof fn lemma_snapshot_on_shard(
    s: State,
    txs: Seq<OrderedTxView>,
    staged: Map<usize, known::StagedView>,
    failed: Set<usize>,
    shard_count: u64,
    shard: ShardId,
)
    requires
        txs.len() <= usize::MAX,
        spoiled(s, txs).subset_of(failed),
        told_all(staged, s, txs, shard_count, shard),
    ensures
        known::installed(
            shards::held_by(s, shard_count, shard),
            staged,
            collections::sorted::<usize>(staged.dom()),
            failed,
            collections::sorted::<usize>(staged.dom()).len() as int,
        ) == shards::held_by(
            serial::run_txs(s, speculation::kept(derived(txs), failed, txs.len() as int)),
            shard_count,
            shard,
        ),
{
    let n = txs.len() as int;
    lemma_install_below(s, txs, staged, failed, shard_count, shard, n);
    lemma_snapshot_is_serial(s, txs, failed, n);
    assert(told_below(staged, n) =~= staged.dom()) by {
        assert forall|j: usize| staged.dom().contains(j) implies told_below(staged, n).contains(
            j,
        ) by {
            assert(staged.contains_key(j));
        }
    }
}

/// A run whose values each came from the shard that holds the key comes to what the
/// transaction does on the whole state before the batch.
pub proof fn lemma_run_reads_snapshot(s: State, v: AriaTxView)
    requires
        v.reads.dom() == executor::read_keys(v.tx.op),
        forall|key: Path| #[trigger]
            v.reads.contains_key(key) ==> v.reads[key] == state::value_in(
                shards::held_by(s, v.shard_count, router::shard_of(v.shard_count, key)),
                key,
            ),
    ensures
        executor::execute(v.tx.op, v.reads) == output_on(s, v.tx),
{
    let reads = state::reads_of(s, executor::read_keys(v.tx.op));
    assert forall|key: Path| v.reads.contains_key(key) implies v.reads[key] == reads[key] by {
        assert(v.reads.dom().contains(key));
    }
    assert(v.reads =~= reads);
}

/// Exactly one shard answers for each transaction.
pub proof fn lemma_one_answer(tx_id: u64, shard_count: u64, writes: Seq<WriteOpView>)
    requires
        shard_count > 0,
    ensures
        aria::result_shard(tx_id, shard_count) < shard_count,
        coordinator::stage_targets(writes, tx_id, shard_count).contains(
            aria::result_shard(tx_id, shard_count),
        ),
{
}

} // verus!
