//! What holds of plans, of graphs while they run, and of predictions.

use crate::collections;
use crate::engine::batch;
use crate::engine::calvin;
use crate::engine::scc_batch;
use crate::error::Error;
use crate::executor;
use crate::laws::speculation;
use crate::laws::tree;
use crate::model::{FsOpView, Key, OrderedTxView, ShardId, TxResult};
use crate::path;
use crate::path::Path;
use crate::router;
use crate::scc::condition;
use crate::scc::dag::DagView;
use crate::scc::delta;
use crate::scc::plan;
use crate::state;
use crate::state::{Reads, State};
use vstd::prelude::*;

verus! {

/// Every edge leads to a later transaction.
pub open spec fn leads_forward(v: DagView) -> bool {
    &&& v.notified.len() == v.successors.len()
    &&& v.finished.len() == v.successors.len()
    &&& v.successors.len() <= usize::MAX
    &&& forall|i: int, j: usize|
        0 <= i < v.successors.len() && #[trigger] v.successors[i].contains(j) ==> i < j
            < v.successors.len()
}

/// The graph of a batch leads forward.
pub proof fn lemma_plans_lead_forward(v: DagView, txs: Seq<OrderedTxView>)
    requires
        scc_batch::starts_as(v, txs),
        txs.len() <= usize::MAX,
    ensures
        leads_forward(v),
{
    assert forall|i: int, j: usize|
        0 <= i < v.successors.len() && #[trigger] v.successors[i].contains(j) implies i < j
        < v.successors.len() by {
        assert(plan::depends(txs, i, j as int));
    }
}

/// While not all are done, one that is not waits for nobody.
pub proof fn lemma_someone_can_go_on(v: DagView, n: int) -> (j: int)
    requires
        leads_forward(v),
        0 <= n < v.finished.len(),
        !v.finished[n],
    ensures
        0 <= j <= n,
        !v.finished[j],
        v.ready(j),
    decreases n,
{
    if forall|i: int| 0 <= i < n ==> v.finished[i] {
        assert forall|i: int|
            0 <= i < v.successors.len() && #[trigger] v.successors[i].contains(
                n as usize,
            ) implies v.finished[i] by {
            assert(i < n);
        }
        n
    } else {
        let i = choose|i: int| 0 <= i < n && !v.finished[i];
        lemma_someone_can_go_on(v, i)
    }
}

/// Those are told to go on who wait for nobody, and only those.
pub open spec fn told_right(v: DagView) -> bool {
    forall|j: int| 0 <= j < v.notified.len() ==> #[trigger] v.notified[j] == v.ready(j)
}

/// Starting tells all who wait for nobody.
pub proof fn lemma_start_tells(v: DagView)
    requires
        leads_forward(v),
        forall|j: int| 0 <= j < v.notified.len() ==> !(#[trigger] v.notified[j]),
    ensures
        told_right(v.notify(v.vertices())),
        leads_forward(v.notify(v.vertices())),
{
    let w = v.notify(v.vertices());
    assert forall|j: int| 0 <= j < w.notified.len() implies #[trigger] w.notified[j] == w.ready(
        j,
    ) by {
        assert(v.vertices().contains(j as usize));
        assert(w.successors == v.successors && w.finished == v.finished);
        if v.ready(j) {
            assert(w.ready(j));
        }
        if w.ready(j) {
            assert(v.ready(j));
        }
    }
    assert forall|i: int, j: usize|
        0 <= i < w.successors.len() && #[trigger] w.successors[i].contains(j) implies i < j
        < w.successors.len() by {
        assert(v.successors[i].contains(j));
    }
}

/// Finishing one tells those who waited for it and now wait for nobody; nobody is
/// forgotten, and nobody is told twice.
pub proof fn lemma_finish_tells(v: DagView, index: int)
    requires
        leads_forward(v),
        told_right(v),
        0 <= index < v.finished.len(),
    ensures
        ({
            let w = v.finish(index).notify(v.successors[index]);
            &&& leads_forward(w)
            &&& told_right(w)
            &&& forall|j: usize| #[trigger]
                v.finish(index).fresh(v.successors[index]).contains(j) <==> j < v.notified.len()
                    && !v.notified[j as int] && w.notified[j as int]
        }),
{
    let f = v.finish(index);
    let w = f.notify(v.successors[index]);
    assert forall|j: int| 0 <= j < w.notified.len() implies #[trigger] w.notified[j] == w.ready(
        j,
    ) by {
        assert(w.ready(j) == f.ready(j));
        assert(v.notified[j] == v.ready(j));
        if v.ready(j) {
            assert(f.ready(j));
        } else if f.ready(j) {
            let i = choose|i: int|
                0 <= i < v.successors.len() && #[trigger] v.successors[i].contains(j as usize)
                    && !v.finished[i];
            assert(f.successors[i].contains(j as usize));
            assert(f.finished[i]);
            assert(i == index);
        }
    }
    assert forall|j: usize| #[trigger] f.fresh(v.successors[index]).contains(j) <==> j
        < v.notified.len() && !v.notified[j as int] && w.notified[j as int] by {
        if j < v.notified.len() && !v.notified[j as int] && w.notified[j as int] {
            assert(f.ready(j as int));
        }
    }
    assert forall|i: int, j: usize|
        0 <= i < w.successors.len() && #[trigger] w.successors[i].contains(j) implies i < j
        < w.successors.len() by {
        assert(v.successors[i].contains(j));
    }
}

/// The condition of an operation is that it succeeds. Left out is moving a directory into
/// itself, which the condition refuses.
pub proof fn lemma_condition_is_success(op: FsOpView, s: State)
    requires
        op.valid(),
        !tree::moves_into_itself(op),
    ensures
        ({
            let reads = state::reads_of(s, executor::read_keys(op));
            condition::success_condition(op, reads) <==> executor::execute(op, reads).result
                == TxResult::Success
        }),
{
    let reads = state::reads_of(s, executor::read_keys(op));
    match op {
        FsOpView::Create { path } => {
            if path != path::root_path() {
                assert(reads.contains_key(path) && reads.contains_key(path::parent_of(path)));
            }
        },
        FsOpView::Mkdir { path } => {
            assert(reads.contains_key(path));
            if path != path::root_path() {
                assert(reads.contains_key(path::parent_of(path)));
            }
        },
        FsOpView::Unlink { path } => {
            if path != path::root_path() {
                assert(reads.contains_key(path) && reads.contains_key(path::parent_of(path)));
            }
        },
        FsOpView::Rmdir { path } => {
            if path != path::root_path() {
                assert(reads.contains_key(path) && reads.contains_key(path::parent_of(path)));
            }
        },
        FsOpView::Rename { src, dst } => {
            if !executor::rename_refused(src, dst) {
                assert(reads.contains_key(src) && reads.contains_key(dst));
                assert(reads.contains_key(path::parent_of(src)));
                assert(reads.contains_key(path::parent_of(dst)));
            }
        },
        FsOpView::Stat { path } => {
            assert(reads.contains_key(path));
        },
    }
}

/// A shard takes part if and only if a key lives there.
proof fn lemma_shard_of_key(shard_count: u64, keys: Set<Path>, key: Path)
    requires
        keys.contains(key),
    ensures
        router::shards_of(shard_count, keys).contains(router::shard_of(shard_count, key)),
{
}

proof fn lemma_key_of_shard(shard_count: u64, keys: Set<Path>, shard: ShardId) -> (key: Path)
    requires
        router::shards_of(shard_count, keys).contains(shard),
    ensures
        keys.contains(key),
        router::shard_of(shard_count, key) == shard,
{
    choose|k: Path| keys.contains(k) && router::shard_of(shard_count, k) == shard
}

/// The first key of one is that one.
proof fn lemma_first_of_one(key: Path)
    ensures
        router::first_key(set![key]) == key,
{
    let keys = set![key];
    assert(keys.contains(key) && forall|other: Path| #[trigger]
        keys.contains(other) ==> other == key || <Key as collections::SortKey>::before(key, other));
    assert(keys.contains(router::first_key(keys)));
}

/// Those who run a transaction take part in it.
pub proof fn lemma_active_take_part(shard_count: u64, tx: OrderedTxView, shard: ShardId)
    requires
        calvin::sets_match(tx),
        calvin::active_shards(shard_count, tx).contains(shard),
    ensures
        router::participants_of(shard_count, tx.read_set, tx.write_set).all.contains(shard),
{
    let keys = tx.read_set.union(tx.write_set);
    if tx.write_set != Set::<Path>::empty() {
        let k = lemma_key_of_shard(shard_count, tx.write_set, shard);
        lemma_shard_of_key(shard_count, keys, k);
    } else {
        calvin::lemma_reads_something(tx.op);
        let path = crate::scc::tables::target_of(tx.op);
        assert(tx.write_set == executor::write_keys(tx.op));
        if !(tx.op is Stat) {
            assert(tx.write_set.contains(path));
        }
        assert(tx.read_set =~= set![path]);
        lemma_first_of_one(path);
        lemma_shard_of_key(shard_count, keys, path);
    }
}

/// Those who take part in a transaction either run it or only serve its reads; someone
/// runs it, and the one who answers for it is among those.
pub proof fn lemma_participants(shard_count: u64, tx: OrderedTxView, answers: ShardId)
    requires
        shard_count > 0,
        calvin::sets_match(tx),
        router::least_shard(calvin::active_shards(shard_count, tx), answers),
    ensures
        ({
            let p = router::participants_of(shard_count, tx.read_set, tx.write_set);
            &&& p.active.union(p.passive) == p.all
            &&& p.active.disjoint(p.passive)
            &&& p.active.contains(answers)
            &&& forall|shard: ShardId| #[trigger] p.all.contains(shard) ==> shard < shard_count
        }),
{
    let p = router::participants_of(shard_count, tx.read_set, tx.write_set);
    assert forall|shard: ShardId| p.active.contains(shard) implies p.all.contains(shard) by {
        lemma_active_take_part(shard_count, tx, shard);
    }
    assert(p.active.union(p.passive) =~= p.all);
    assert forall|shard: ShardId| #[trigger] p.all.contains(shard) implies shard < shard_count by {
        let k = lemma_key_of_shard(shard_count, tx.read_set.union(tx.write_set), shard);
    }
}

/// A transaction with the key sets of its operation never writes a key on a shard that
/// is not among those it may write there.
pub proof fn lemma_no_stray_write(
    tx: OrderedTxView,
    reads: Reads,
    shard_count: u64,
    shard: ShardId,
    error: Error,
)
    requires
        calvin::sets_match(tx),
    ensures
        !batch::stray_error(
            executor::local_writes(executor::execute(tx.op, reads).writes, shard, shard_count),
            router::local_part(shard_count, tx.write_set, shard),
            tx.tx_id,
            error,
        ),
{
    let writes = executor::execute(tx.op, reads).writes;
    let local = executor::local_writes(writes, shard, shard_count);
    let keys = router::local_part(shard_count, tx.write_set, shard);
    crate::laws::operations::lemma_writes_within(tx.op, reads);
    assert forall|i: int| 0 <= i < local.len() implies keys.contains(
        (#[trigger] local[i]).target(),
    ) by {
        lemma_kept_write(writes, shard, shard_count, i);
        let j = choose|j: int| 0 <= j < writes.len() && writes[j] == local[i];
        assert(writes[j].target() == local[i].target());
        assert(state::write_targets(writes).contains(local[i].target()));
    }
}

/// What is kept of writes for a shard is one of them, to a key of this shard.
proof fn lemma_kept_write(
    writes: Seq<crate::model::WriteOpView>,
    shard: ShardId,
    shard_count: u64,
    i: int,
)
    requires
        0 <= i < executor::local_writes(writes, shard, shard_count).len(),
    ensures
        writes.contains(executor::local_writes(writes, shard, shard_count)[i]),
        router::shard_of(
            shard_count,
            executor::local_writes(writes, shard, shard_count)[i].target(),
        ) == shard,
    decreases writes.len(),
{
    reveal(Seq::filter);
    let front = writes.drop_last();
    let before = executor::local_writes(front, shard, shard_count);
    if i < before.len() {
        lemma_kept_write(front, shard, shard_count, i);
        let j = choose|j: int| 0 <= j < front.len() && front[j] == before[i];
        assert(writes[j] == before[i]);
    } else {
        assert(writes[writes.len() - 1] == executor::local_writes(writes, shard, shard_count)[i]);
    }
}

/// The effect of a transaction that succeeds on its reads can always be told as changes:
/// nothing is missing, and no count changes by more than one.
pub proof fn lemma_effect_never_refused(tx: OrderedTxView, s: State)
    requires
        calvin::sets_match(tx),
        tx.op.valid(),
        executor::execute(tx.op, state::reads_of(s, tx.read_set)).result == TxResult::Success,
        !executor::overflows(tx.op, state::reads_of(s, tx.read_set)),
    ensures
        ({
            let reads = state::reads_of(s, tx.read_set);
            let writes = executor::execute(tx.op, reads).writes;
            &&& delta::all_read(tx.write_set, reads)
            &&& delta::within(writes, tx.write_set)
            &&& delta::all_in_range(collections::sorted::<Key>(tx.write_set), reads, writes)
        }),
{
    let reads = state::reads_of(s, tx.read_set);
    let writes = executor::execute(tx.op, reads).writes;
    let keys = collections::sorted::<Key>(tx.write_set);
    speculation::lemma_write_keys_ordered(tx);
    crate::laws::operations::lemma_writes_within(tx.op, reads);
    assert forall|i: int| 0 <= i < writes.len() implies tx.write_set.contains(
        (#[trigger] writes[i]).target(),
    ) by {
        assert(state::write_targets(writes).contains(writes[i].target()));
    }
    assert forall|i: int| 0 <= i < keys.len() implies !(#[trigger] delta::out_of_range_at(
        keys,
        reads,
        writes,
        i,
    )) by {
        assert(keys.to_set().contains(keys[i]));
        let found = delta::found_in(reads, keys[i]);
        lemma_changes_by_one(tx, s, keys[i]);
    }
}

/// Under no key does a count change by more than one.
proof fn lemma_changes_by_one(tx: OrderedTxView, s: State, key: Path)
    requires
        calvin::sets_match(tx),
        tx.op.valid(),
        executor::execute(tx.op, state::reads_of(s, tx.read_set)).result == TxResult::Success,
        !executor::overflows(tx.op, state::reads_of(s, tx.read_set)),
        tx.write_set.contains(key),
    ensures
        ({
            let reads = state::reads_of(s, tx.read_set);
            let writes = executor::execute(tx.op, reads).writes;
            let found = delta::found_in(reads, key);
            !delta::change_out_of_range(found, delta::value_after(writes, key, found))
        }),
{
    let reads = state::reads_of(s, tx.read_set);
    let writes = executor::execute(tx.op, reads).writes;
    let found = delta::found_in(reads, key);
    reveal_with_fuel(delta::value_after, 5);
    match tx.op {
        FsOpView::Create { path } => {
            path::lemma_parent_valid(path);
            assert(writes.drop_last().last() == writes[0]);
        },
        FsOpView::Mkdir { path } => {
            if path != path::root_path() {
                path::lemma_parent_valid(path);
                assert(writes.drop_last().last() == writes[0]);
            }
        },
        FsOpView::Unlink { path } => {
            path::lemma_parent_valid(path);
            assert(writes.drop_last().last() == writes[0]);
        },
        FsOpView::Rmdir { path } => {
            path::lemma_parent_valid(path);
            assert(writes.drop_last().last() == writes[0]);
        },
        FsOpView::Rename { src, dst } => {
            path::lemma_parent_valid(src);
            path::lemma_parent_valid(dst);
            assert(tx.read_set.contains(src) && tx.read_set.contains(dst));
            assert(tx.read_set.contains(path::parent_of(src)));
            assert(tx.read_set.contains(path::parent_of(dst)));
            if path::parent_of(src) == path::parent_of(dst) {
                assert(writes.len() == 2);
                assert(writes.drop_last().last() == writes[0]);
            } else {
                let w = executor::move_writes(
                    src,
                    dst,
                    reads[src]->Present_0,
                    reads[path::parent_of(src)]->Present_0,
                    reads[path::parent_of(dst)]->Present_0,
                );
                assert(writes == w);
                assert(w.len() == 4);
                assert(w.last() == w[3]);
                assert(w.drop_last().last() == w[2]);
                assert(w.drop_last().drop_last().last() == w[1]);
                assert(w.drop_last().drop_last().drop_last().last() == w[0]);
            }
        },
        FsOpView::Stat { .. } => {},
    }
}

} // verus!
