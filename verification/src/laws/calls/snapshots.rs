//! Calls of running a batch on a snapshot: reading, staging, losing and installing.

use crate::collections;
use crate::collections::{OrdMap, OrdSet, SortKey};
use crate::engine::aria::coordinator;
use crate::engine::aria::coordinator::{
    add_aria_read, aria_read_keys_for_tx, aria_read_plan, aria_stage_outcomes, check_aria_read,
};
use crate::engine::aria::fallback::{
    aria_fallback_active_shards, aria_fallback_completion, AriaFallbackCompletion,
};
use crate::engine::aria::registry;
use crate::engine::aria::registry::{failures_from_wire, failures_to_wire, AriaBatchRegistry};
use crate::engine::aria::state as known;
use crate::engine::aria::state::{AriaBatchState, StagedView};
use crate::engine::aria::{aria_result_shard, AriaStageOutcome};
use crate::error::Result;
use crate::executor;
use crate::laws::operations;
use crate::laws::outcomes;
use crate::model::{
    BatchId, Key, OrderedTx, ReadValue, ShardId, TxId, TxResult, TxResultRecord, WriteOpView,
};
use crate::path::Path;
use crate::router;
use crate::router::ShardLayout;
use crate::state;
use crate::state::State;
use crate::storage::RedbInMemoryInodeStore;
use vstd::prelude::*;

verus! {

/// Transaction `i` is noted for `key`.
pub open spec fn noted_at(users: Map<Path, Set<usize>>, key: Path, i: usize) -> bool {
    users.contains_key(key) && users[key].contains(i)
}

/// The shard that the id of a transaction picks is the remainder by the number of shards.
pub proof fn lemma_result_shard_call(tx_id: TxId, shard_count: u64, r: ShardId)
    requires
        shard_count > 0,
        call_ensures(aria_result_shard, (tx_id, shard_count), r),
    ensures
        r < shard_count,
        exists|times: int| tx_id == #[trigger] (times * shard_count) + r,
{
    let n = shard_count as int;
    vstd::arithmetic::div_mod::lemma_fundamental_div_mod(tx_id as int, n);
    vstd::arithmetic::mul::lemma_mul_is_commutative(n, tx_id as int / n);
    assert(tx_id == (tx_id as int / n) * n + tx_id as int % n);
}

/// A key is read as it is stored, and that it was is noted of who read it; a key of
/// another shard is refused. Nothing else is noted.
pub proof fn lemma_snapshot_read_call(
    batch: &mut AriaBatchState,
    store: &RedbInMemoryInodeStore,
    layout: &ShardLayout,
    shard: ShardId,
    index: usize,
    key: &Key,
    r: Result<ReadValue>,
    other: Path,
    i: usize,
)
    requires
        old(batch).wf(),
        store.wf(),
        layout.wf(),
        call_ensures(
            AriaBatchState::read_snapshot,
            (batch, store, layout, shard, index, key),
            r,
        ),
    ensures
        router::shard_of(layout.shard_count, key@) != shard ==> r is Err,
        r matches Ok(value) ==> value == (if store@.contains_key(key@) {
            ReadValue::Present(store@[key@])
        } else {
            ReadValue::Missing
        }),
        r is Ok ==> (noted_at(final(batch)@.readers, other, i) <==> noted_at(
            old(batch)@.readers,
            other,
            i,
        ) || other == key@ && i == index),
        r is Ok ==> final(batch)@.writers == old(batch)@.writers && final(batch)@.staged
            == old(batch)@.staged,
        r is Err ==> final(batch)@ == old(batch)@,
{
}

proof fn lemma_writes_noted(
    users: Map<Path, Set<usize>>,
    writes: Seq<WriteOpView>,
    index: usize,
    key: Path,
    i: usize,
)
    ensures
        noted_at(known::all_noted(users, writes, index), key, i) <==> noted_at(users, key, i) || i
            == index && exists|k: int|
            0 <= k < writes.len() && (#[trigger] writes[k]).target() == key,
    decreases writes.len(),
{
    if writes.len() > 0 {
        let front = writes.drop_last();
        lemma_writes_noted(users, front, index, key, i);
        let n = writes.len() - 1;
        if exists|k: int| 0 <= k < writes.len() && (#[trigger] writes[k]).target() == key {
            let k = choose|k: int| 0 <= k < writes.len() && (#[trigger] writes[k]).target() == key;
            if k < n {
                assert(front[k] == writes[k]);
            }
        }
        if exists|k: int| 0 <= k < front.len() && (#[trigger] front[k]).target() == key {
            let k = choose|k: int| 0 <= k < front.len() && (#[trigger] front[k]).target() == key;
            assert(writes[k] == front[k]);
        }
        assert(writes[n] == writes.last());
    }
}

/// What a transaction is to do here is taken if and only if it comes from the shard that
/// answers for it, says rightly whether that is this one, writes to keys of this shard
/// only, and is the first of this transaction. It is then kept with its writes, its result
/// only where this shard answers; each key that it writes is noted, and no other.
pub proof fn lemma_stage_call(
    batch: &mut AriaBatchState,
    layout: &ShardLayout,
    shard: ShardId,
    outcome: AriaStageOutcome,
    r: Result<()>,
    key: Path,
    i: usize,
)
    requires
        old(batch).wf(),
        layout.wf(),
        call_ensures(AriaBatchState::stage_outcome, (batch, layout, shard, outcome), r),
    ensures
        ({
            let o = outcome@;
            let answers = o.tx_id as int % layout.shard_count as int;
            &&& r is Ok <==> {
                &&& o.from_shard == answers
                &&& o.is_result_shard <==> shard == answers
                &&& forall|k: int|
                    0 <= k < o.writes.len() ==> router::shard_of(
                        layout.shard_count,
                        (#[trigger] o.writes[k]).target(),
                    ) == shard
                &&& !old(batch)@.staged.contains_key(o.tx_index)
            }
            &&& r is Ok ==> {
                let kept = final(batch)@.staged[o.tx_index];
                &&& final(batch)@.staged.contains_key(o.tx_index)
                &&& kept.tx_id == o.tx_id && kept.tx_index == o.tx_index
                &&& kept.local_writes == o.writes
                &&& kept.is_result_shard == o.is_result_shard
                &&& o.is_result_shard ==> kept.result == Some(o.result)
                &&& !o.is_result_shard ==> kept.result is None
                &&& noted_at(final(batch)@.writers, key, i) <==> noted_at(
                    old(batch)@.writers,
                    key,
                    i,
                ) || i == o.tx_index && exists|k: int|
                    0 <= k < o.writes.len() && (#[trigger] o.writes[k]).target() == key
                &&& final(batch)@.readers == old(batch)@.readers
                &&& i != o.tx_index ==> (final(batch)@.staged.contains_key(i)
                    <==> old(batch)@.staged.contains_key(i))
                &&& i != o.tx_index && old(batch)@.staged.contains_key(i)
                    ==> final(batch)@.staged[i] == old(batch)@.staged[i]
            }
        }),
{
    lemma_writes_noted(old(batch)@.writers, outcome@.writes, outcome@.tx_index, key, i);
}

/// A transaction loses if and only if it used a key to which an earlier one wrote.
pub proof fn lemma_losers_call(batch: &AriaBatchState, r: OrdSet<usize>, i: usize)
    requires
        call_ensures(AriaBatchState::local_failed_indices, (batch,), r),
    ensures
        r@.contains(i) <==> exists|key: Path, j: usize| #[trigger]
            noted_at(batch@.writers, key, j) && j < i && (noted_at(batch@.writers, key, i)
                || noted_at(batch@.readers, key, i)),
{
    let v = batch@;
    if r@.contains(i) {
        let key = choose|key: Path| #[trigger] v.loses(key, i);
        let j = choose|j: usize| j < i && #[trigger] known::users_of(v.writers, key).contains(j);
        assert(noted_at(v.writers, key, j));
    }
    if exists|key: Path, j: usize| #[trigger]
        noted_at(v.writers, key, j) && j < i && (noted_at(v.writers, key, i) || noted_at(
            v.readers,
            key,
            i,
        )) {
        let (key, j) = choose|key: Path, j: usize| #[trigger]
            noted_at(v.writers, key, j) && j < i && (noted_at(v.writers, key, i) || noted_at(
                v.readers,
                key,
                i,
            ));
        assert(known::users_of(v.writers, key).contains(j));
        assert(v.loses(key, i));
    }
}

/// The first transaction never loses.
pub proof fn lemma_first_stands_call(batch: &AriaBatchState, r: OrdSet<usize>)
    requires
        call_ensures(AriaBatchState::local_failed_indices, (batch,), r),
    ensures
        !r@.contains(0),
{
    lemma_losers_call(batch, r, 0);
}

/// All is run when every shard said so; each says so once, and none that there is not.
pub proof fn lemma_done_call(
    batch: &mut AriaBatchState,
    batch_id: BatchId,
    from: ShardId,
    shard_count: u64,
    r: Result<()>,
    after: AriaBatchState,
    done: bool,
)
    requires
        old(batch).wf(),
        call_ensures(
            AriaBatchState::record_execution_done,
            (batch, batch_id, from, shard_count),
            r,
        ),
        after@ == final(batch)@,
        call_ensures(AriaBatchState::execution_done, (&after, shard_count), done),
    ensures
        r is Ok <==> from < shard_count && !old(batch)@.done.contains(from),
        from < shard_count ==> (done <==> forall|s: ShardId|
            s < shard_count && s != from ==> #[trigger] old(batch)@.done.contains(s)),
        from >= shard_count ==> final(batch)@ == old(batch)@,
        final(batch)@.staged == old(batch)@.staged,
        final(batch)@.failures == old(batch)@.failures,
{
    let d = final(batch)@.done;
    if from < shard_count {
        if done {
            assert forall|s: ShardId| s < shard_count
                && s != from implies #[trigger] old(batch)@.done.contains(s) by {
                assert(d.contains(s));
            }
        }
        if forall|s: ShardId| s < shard_count && s != from ==> #[trigger] old(batch)@.done.contains(
            s,
        ) {
            assert forall|s: ShardId| s < shard_count implies #[trigger] d.contains(s) by {
                if s != from {
                    assert(old(batch)@.done.contains(s));
                }
            }
        }
    }
}

/// What failed is known when every shard has reported; it is then whatever some shard
/// reported, and nothing else.
pub proof fn lemma_failures_call(
    batch: &AriaBatchState,
    shard_count: u64,
    r: Option<OrdSet<usize>>,
    i: usize,
)
    requires
        call_ensures(AriaBatchState::failure_reports, (batch, shard_count), r),
    ensures
        r is Some <==> forall|s: ShardId|
            s < shard_count ==> #[trigger] batch@.failures.contains_key(s),
        r matches Some(failed) ==> (failed@.contains(i) <==> exists|s: ShardId| #[trigger]
            batch@.failures.contains_key(s) && batch@.failures[s].contains(i)),
{
    let v = batch@;
    if r is Some {
        assert forall|s: ShardId| s < shard_count implies #[trigger] v.failures.contains_key(s) by {
            assert(v.failures.dom().contains(s));
        }
        if v.reported_failures().contains(i) {
            let s = choose|s: ShardId|
                v.failures.contains_key(s) && #[trigger] v.failures[s].contains(i);
            assert(v.failures.contains_key(s));
        }
        if exists|s: ShardId| #[trigger]
            v.failures.contains_key(s) && v.failures[s].contains(i) {
            let s = choose|s: ShardId| #[trigger]
                v.failures.contains_key(s) && v.failures[s].contains(i);
            assert(v.failures[s].contains(i));
        }
    } else {
        if forall|s: ShardId| s < shard_count ==> #[trigger] v.failures.contains_key(s) {
            assert forall|s: ShardId| s < shard_count implies #[trigger] v.failures.dom().contains(
                s,
            ) by {
                assert(v.failures.contains_key(s));
            }
        }
    }
}

/// Of the outcomes in their order one more is made if it did not fail, and its result is
/// told if this shard answers for it.
pub proof fn lemma_aria_install_step(
    s: State,
    staged: Map<usize, StagedView>,
    order: Seq<usize>,
    failed: Set<usize>,
    shard: ShardId,
    n: int,
)
    requires
        0 <= n < order.len(),
    ensures
        known::installed(s, staged, order, failed, 0) == s,
        known::answers(staged, order, failed, shard, 0) == Seq::<TxResultRecord>::empty(),
        ({
            let one = staged[order[n]];
            let before = known::installed(s, staged, order, failed, n);
            let told = known::answers(staged, order, failed, shard, n);
            let stands = !failed.contains(order[n]);
            &&& known::installed(s, staged, order, failed, n + 1) == if stands {
                state::apply_writes(before, one.local_writes)
            } else {
                before
            }
            &&& known::answers(staged, order, failed, shard, n + 1) == if stands
                && one.is_result_shard {
                told.push(
                    TxResultRecord { tx_id: one.tx_id, shard_id: shard, result: one.result->0 },
                )
            } else {
                told
            }
        }),
{
}

/// Installing goes through what is staged by ascending place.
pub proof fn lemma_aria_install_call(
    batch: &AriaBatchState,
    store: &mut RedbInMemoryInodeStore,
    shard: ShardId,
    failed: &OrdSet<usize>,
    list: &mut Vec<TxResultRecord>,
    r: Result<()>,
    order: Seq<usize>,
)
    requires
        batch.wf(),
        old(store).wf(),
        call_ensures(
            AriaBatchState::install_aria_successes,
            (batch, store, shard, failed, list),
            r,
        ),
        r is Ok,
        batch@.staged.dom().finite(),
        forall|a: int, b: int| 0 <= a < b < order.len() ==> order[a] < order[b],
        forall|i: usize| #[trigger] order.contains(i) <==> batch@.staged.contains_key(i),
    ensures
        final(store)@ == known::installed(
            old(store)@,
            batch@.staged,
            order,
            failed@,
            order.len() as int,
        ),
        final(list)@ == old(list)@ + known::answers(
            batch@.staged,
            order,
            failed@,
            shard,
            order.len() as int,
        ),
{
    let sorted = collections::sorted::<usize>(batch@.staged.dom());
    collections::lemma_sorted_of_finite::<usize>(batch@.staged.dom());
    assert forall|a: int, b: int| 0 <= a < b < sorted.len() implies sorted[a] < sorted[b] by {
        assert(<usize as collections::SortKey>::before(sorted[a], sorted[b]));
    }
    assert forall|i: usize| sorted.contains(i) <==> order.contains(i) by {
        assert(sorted.contains(i) == sorted.to_set().contains(i));
        assert(order.contains(i) == batch@.staged.contains_key(i));
    }
    lemma_same_ascending(sorted, order);
}

proof fn lemma_same_ascending(a: Seq<usize>, b: Seq<usize>)
    requires
        forall|i: int, j: int| 0 <= i < j < a.len() ==> a[i] < a[j],
        forall|i: int, j: int| 0 <= i < j < b.len() ==> b[i] < b[j],
        forall|x: usize| a.contains(x) <==> b.contains(x),
    ensures
        a == b,
    decreases a.len(),
{
    if a.len() == 0 {
        if b.len() > 0 {
            assert(b.contains(b[0]));
        }
        assert(a =~= b);
    } else {
        assert(a.contains(a.last()));
        assert(b.contains(a.last()));
        assert(b.contains(b.last()));
        assert(a.contains(b.last()));
        let m = choose|m: int| 0 <= m < b.len() && b[m] == a.last();
        let n = choose|n: int| 0 <= n < a.len() && a[n] == b.last();
        assert(a.last() == b.last());
        let c = a.drop_last();
        let d = b.drop_last();
        assert forall|x: usize| c.contains(x) <==> d.contains(x) by {
            if c.contains(x) {
                let i = choose|i: int| 0 <= i < c.len() && c[i] == x;
                assert(a[i] == x && a.contains(x));
                let k = choose|k: int| 0 <= k < b.len() && b[k] == x;
                assert(d[k] == x);
            }
            if d.contains(x) {
                let i = choose|i: int| 0 <= i < d.len() && d[i] == x;
                assert(b[i] == x && b.contains(x));
                let k = choose|k: int| 0 <= k < a.len() && a[k] == x;
                assert(c[k] == x);
            }
        }
        lemma_same_ascending(c, d);
        assert(a =~= c.push(a.last()));
        assert(b =~= d.push(b.last()));
    }
}

/// What is known of one batch is not changed by what comes in of another, and a batch that
/// is over is forgotten.
pub proof fn lemma_batches_apart_call(
    known_batches: &mut AriaBatchRegistry,
    layout: &ShardLayout,
    shard: ShardId,
    outcome: AriaStageOutcome,
    r: Result<()>,
    over: &mut AriaBatchRegistry,
    gone: BatchId,
    other: BatchId,
)
    requires
        old(known_batches).wf(),
        layout.wf(),
        call_ensures(
            AriaBatchRegistry::stage_outcome,
            (known_batches, layout, shard, outcome),
            r,
        ),
        call_ensures(AriaBatchRegistry::cleanup_batch, (over, gone), ()),
    ensures
        other != outcome@.batch_id ==> final(known_batches).state(other)
            == old(known_batches).state(other),
        other != gone ==> final(over).state(other) == old(over).state(other),
        other == gone ==> final(over).state(other).staged == Map::<usize, StagedView>::empty()
            && final(over).state(other).done == Set::<ShardId>::empty(),
{
}

/// The keys to read for a transaction are those of its operation, each asked once, in
/// order, of the shard on which it lives.
pub proof fn lemma_read_plan_call(
    layout: &ShardLayout,
    tx: &OrderedTx,
    r: Result<Vec<(Key, ShardId)>>,
    keys: Result<OrdSet<Key>>,
    key: Path,
    a: int,
    b: int,
)
    requires
        layout.wf(),
        call_ensures(aria_read_plan, (layout, tx), r),
        call_ensures(aria_read_keys_for_tx, (tx,), keys),
        keys->Ok_0@.finite(),
    ensures
        r is Ok && keys is Ok,
        keys->Ok_0@ == executor::read_keys(tx@.op),
        keys->Ok_0@.contains(key) <==> exists|i: int|
            0 <= i < r->Ok_0@.len() && (#[trigger] r->Ok_0@[i]).0@ == key,
        0 <= a < r->Ok_0@.len() ==> r->Ok_0@[a].1 == router::shard_of(
            layout.shard_count,
            r->Ok_0@[a].0@,
        ),
        0 <= a < b < r->Ok_0@.len() ==> Key::before(r->Ok_0@[a].0@, r->Ok_0@[b].0@),
{
    let order = collections::sorted::<Key>(keys->Ok_0@);
    collections::lemma_sorted_of_finite::<Key>(keys->Ok_0@);
    let asks = r->Ok_0@;
    if keys->Ok_0@.contains(key) {
        assert(order.to_set().contains(key));
        let i = choose|i: int| 0 <= i < order.len() && order[i] == key;
        assert(asks[i].0@ == key);
    }
    if exists|i: int| 0 <= i < asks.len() && (#[trigger] asks[i]).0@ == key {
        let i = choose|i: int| 0 <= i < asks.len() && (#[trigger] asks[i]).0@ == key;
        assert(asks[i].0@ == order[i]);
        assert(order.to_set().contains(order[i]));
    }
    if 0 <= a < b < asks.len() {
        assert(asks[a].0@ == order[a] && asks[b].0@ == order[b]);
        assert(<Key as collections::SortKey>::before(order[a], order[b]));
    } else if 0 <= a < asks.len() {
        assert(asks[a].0@ == order[a]);
    }
}

/// The answer to a read is taken if and only if it is about the key that was asked for,
/// and is then what is known of it; that a key was known before is an error.
pub proof fn lemma_read_answer_call(
    tx_id: TxId,
    key: &Key,
    returned: Key,
    r: Result<()>,
    reads: &mut OrdMap<Key, ReadValue>,
    value: ReadValue,
    added: Result<()>,
    other: Path,
)
    requires
        call_ensures(check_aria_read, (tx_id, key, returned), r),
        call_ensures(add_aria_read, (reads, tx_id, key, value), added),
    ensures
        r is Ok <==> returned@ == key@,
        added is Ok <==> !old(reads)@.contains_key(key@),
        final(reads)@.contains_key(key@) && final(reads)@[key@] == value,
        other != key@ ==> (final(reads)@.contains_key(other) <==> old(reads)@.contains_key(other)),
        other != key@ && old(reads)@.contains_key(other) ==> final(reads)@[other]
            == old(reads)@[other],
{
}

/// Those are told of a transaction on whose keys it writes, and the one that answers for
/// it: each its own writes, in their order, and the result that it came to.
pub proof fn lemma_told_call(
    layout: &ShardLayout,
    shard: ShardId,
    batch_id: BatchId,
    index: usize,
    tx: &OrderedTx,
    reads: &OrdMap<Key, ReadValue>,
    r: Option<Vec<(ShardId, AriaStageOutcome)>>,
    s: State,
    target: ShardId,
    i: int,
)
    requires
        layout.wf(),
        call_ensures(aria_stage_outcomes, (layout, shard, batch_id, index, tx, reads), r),
        r is Some,
        operations::reads_from(reads@, s, tx@.op),
        ({
            let writes = executor::execute(tx@.op, reads@).writes;
            coordinator::stage_targets(writes, tx@.tx_id, layout.shard_count).finite()
        }),
    ensures
        ({
            let stages = r->0@;
            let writes = executor::execute(tx@.op, reads@).writes;
            let count = layout.shard_count;
            let answers = (tx@.tx_id as int % count as int) as ShardId;
            &&& (exists|k: int| 0 <= k < stages.len() && (#[trigger] stages[k]).0 == target)
                <==> target == answers || exists|k: int|
                0 <= k < writes.len() && router::shard_of(
                    count,
                    (#[trigger] writes[k]).target(),
                ) == target
            &&& 0 <= i < stages.len() ==> {
                let o = stages[i].1@;
                &&& o.batch_id == batch_id && o.tx_index == index && o.tx_id == tx@.tx_id
                &&& o.from_shard == shard
                &&& o.result == outcomes::answer(s, tx@.op)
                &&& o.is_result_shard <==> stages[i].0 == answers
                &&& o.writes == writes.filter(
                    |w: WriteOpView| router::shard_of(count, w.target()) == stages[i].0,
                )
            }
        }),
{
    outcomes::lemma_answer_from_reads(s, tx@.op, reads@);
    let count = layout.shard_count;
    let output = executor::execute(tx@.op, reads@);
    let writes = output.writes;
    let targets = coordinator::stage_targets(writes, tx@.tx_id, count);
    let order = collections::sorted::<ShardId>(targets);
    collections::lemma_sorted_of_finite::<ShardId>(targets);
    let stages = r->0@;
    let answers = (tx@.tx_id as int % count as int) as ShardId;
    assert(answers == crate::engine::aria::result_shard(tx@.tx_id, count));
    if exists|k: int| 0 <= k < stages.len() && (#[trigger] stages[k]).0 == target {
        let k = choose|k: int| 0 <= k < stages.len() && (#[trigger] stages[k]).0 == target;
        assert(stages[k].0 == order[k]);
        assert(order.to_set().contains(order[k]));
        if target != answers {
            let key = choose|key: Path| #[trigger]
                state::write_targets(writes).contains(key) && router::shard_of(count, key)
                    == target;
            let m = choose|m: int| 0 <= m < writes.len() && (#[trigger] writes[m]).target() == key;
            assert(router::shard_of(count, writes[m].target()) == target);
        }
    }
    if target == answers || exists|k: int|
        0 <= k < writes.len() && router::shard_of(count, (#[trigger] writes[k]).target())
            == target {
        if target != answers {
            let k = choose|k: int|
                0 <= k < writes.len() && router::shard_of(count, (#[trigger] writes[k]).target())
                    == target;
            assert(state::write_targets(writes).contains(writes[k].target()));
        }
        assert(targets.contains(target));
        assert(order.to_set().contains(target));
        let k = choose|k: int| 0 <= k < order.len() && order[k] == target;
        assert(stages[k].0 == target);
    }
    if 0 <= i < stages.len() {
        assert(stages[i].0 == order[i]);
        assert(executor::local_writes(writes, order[i], count) =~= writes.filter(
            |w: WriteOpView| router::shard_of(count, w.target()) == stages[i].0,
        ));
    }
}

/// What failed is sent by ascending place and read back unchanged where it fits.
pub proof fn lemma_wire_call(failed: &OrdSet<usize>, sent: Vec<u32>, back: OrdSet<usize>)
    requires
        call_ensures(failures_to_wire, (failed,), sent),
        call_ensures(failures_from_wire, (&sent,), back),
        failed@.finite(),
        forall|i: usize| #[trigger] failed@.contains(i) ==> i <= u32::MAX,
    ensures
        back@ == failed@,
{
    registry::lemma_failures_round_trip(failed@, sent@);
}

/// A transaction is run again by the shards on which it may write, and by the one that
/// answers for it; only the latter makes a record.
pub proof fn lemma_again_call(
    layout: &ShardLayout,
    tx: &OrderedTx,
    r: OrdSet<ShardId>,
    shard: ShardId,
    answers: ShardId,
    result: TxResult,
    end: AriaFallbackCompletion,
)
    requires
        layout.wf(),
        call_ensures(aria_fallback_active_shards, (layout, tx), r),
        call_ensures(aria_fallback_completion, (tx@.tx_id, answers, shard, result), end),
    ensures
        r@.contains(shard) <==> shard as int == tx@.tx_id as int % layout.shard_count as int
            || exists|k: Path| #[trigger]
            tx@.write_set.contains(k) && router::shard_of(layout.shard_count, k) == shard,
        end matches AriaFallbackCompletion::Active { result: told, record } && told == result && (
        record is Some <==> shard == answers) && (record is Some ==> record->0 == (TxResultRecord {
            tx_id: tx@.tx_id,
            shard_id: shard,
            result,
        })),
{
}

} // verus!
