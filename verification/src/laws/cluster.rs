//! A whole cluster runs ahead: each shard with its own slots.

use crate::collections;
use crate::engine::calvin;
use crate::engine::reorder;
use crate::executor;
use crate::laws::shards;
use crate::laws::speculation;
use crate::laws::tree;
use crate::model::{Key, OrderedTxView, ShardId, WriteOpView};
use crate::path::Path;
use crate::router;
use crate::scc::commit::SlotView;
use crate::scc::delta;
use crate::scc::delta::DeltaOpView;
use crate::scc::plan::SccBatchPlan;
use crate::scc::read;
use crate::scc::read::Replay;
use crate::serial;
use crate::state;
use crate::state::{Reads, State};
use vstd::prelude::*;

verus! {

/// The changes of keys are about these keys.
proof fn lemma_changes_about(keys: Seq<Path>, reads: Reads, writes: Seq<WriteOpView>)
    ensures
        shards::change_targets(delta::changes(keys, reads, writes)).subset_of(keys.to_set()),
    decreases keys.len(),
{
    let ops = delta::changes(keys, reads, writes);
    if keys.len() > 0 {
        let front = keys.drop_last();
        lemma_changes_about(front, reads, writes);
        let before = delta::changes(front, reads, writes);
        assert forall|k: Path| shards::change_targets(ops).contains(
            k,
        ) implies keys.to_set().contains(k) by {
            let i = choose|i: int| 0 <= i < ops.len() && (#[trigger] ops[i]).target() == k;
            if i < before.len() {
                assert(before[i].target() == k);
                assert(shards::change_targets(before).contains(k));
                assert(front.to_set().contains(k));
                let j = choose|j: int| 0 <= j < front.len() && front[j] == k;
                assert(keys[j] == k);
            } else {
                assert(keys[keys.len() - 1] == k);
            }
        }
    }
}

/// Keeping what is about some keys is the same for any two sets of keys that agree on
/// what the changes are about.
proof fn lemma_same_within(ops: Seq<DeltaOpView>, a: Set<Path>, b: Set<Path>)
    requires
        forall|k: Path| #[trigger]
            shards::change_targets(ops).contains(k) ==> a.contains(k) == b.contains(k),
    ensures
        delta::changes_within(ops, a) == delta::changes_within(ops, b),
    decreases ops.len(),
{
    reveal(Seq::filter);
    if ops.len() > 0 {
        let front = ops.drop_last();
        let n = ops.len() - 1;
        assert(ops[n].target() == ops.last().target());
        assert(shards::change_targets(ops).contains(ops.last().target()));
        assert forall|k: Path| #[trigger] shards::change_targets(front).contains(
            k,
        ) implies a.contains(k) == b.contains(k) by {
            let i = choose|i: int| 0 <= i < front.len() && (#[trigger] front[i]).target() == k;
            assert(ops[i].target() == k);
            assert(shards::change_targets(ops).contains(k));
        }
        lemma_same_within(front, a, b);
    }
}

/// What a worker stages on its shard, from reads that are complete, is the part of the
/// transaction's slot that this shard is to have.
pub proof fn lemma_staged_is_part(
    tx: OrderedTxView,
    reads: Reads,
    shard_count: u64,
    shard: ShardId,
    staged: Seq<DeltaOpView>,
)
    requires
        calvin::sets_match(tx),
        staged == delta::changes_within(
            speculation::effect_of(tx, reads),
            router::local_part(shard_count, tx.write_set, shard),
        ),
    ensures
        shards::slot_part(
            speculation::slot_for(tx, reads),
            shards::keys_on(shard_count, shard),
        ) == (if staged.len() == 0 {
            SlotView::NoOp
        } else {
            SlotView::Delta(staged)
        }),
        shards::change_targets(speculation::effect_of(tx, reads)).subset_of(tx.write_set),
{
    let effect = speculation::effect_of(tx, reads);
    let part = router::local_part(shard_count, tx.write_set, shard);
    let on = shards::keys_on(shard_count, shard);
    let keys = collections::sorted::<Key>(tx.write_set);
    speculation::lemma_write_keys_ordered(tx);
    lemma_changes_about(keys, reads, executor::execute(tx.op, reads).writes);
    assert forall|k: Path| #[trigger] shards::change_targets(effect).contains(
        k,
    ) implies part.contains(k) == on.contains(k) by {
        assert(keys.to_set().contains(k));
    }
    lemma_same_within(effect, part, on);
    if effect.len() == 0 {
        assert(delta::changes_within(effect, part) =~= Seq::<DeltaOpView>::empty()) by {
            reveal(Seq::filter);
        }
    }
}

/// What a worker reads on its shard for a transaction is what the transaction must see:
/// the state to which the slots before `n` lead, under the keys that live here.
pub proof fn lemma_worker_sees(
    s: State,
    slots: Seq<SlotView>,
    failed: Set<usize>,
    shard_count: u64,
    shard: ShardId,
    local: Seq<SlotView>,
    writes: Seq<Set<Path>>,
    base_keys: Set<Path>,
    keys: Set<Path>,
    n: int,
)
    requires
        0 <= n <= slots.len(),
        shards::slots_of_shard(slots, failed, shard_count, shard, local),
        reorder::installed(s, slots, failed, n) is Some,
        keys.subset_of(base_keys),
        keys.subset_of(shards::keys_on(shard_count, shard)),
        writes.len() == slots.len(),
        forall|i: int|
            0 <= i < n && slots[i] is Delta && !failed.contains(i as usize)
                ==> shards::change_targets(slots[i]->Delta_0).intersect(
                shards::keys_on(shard_count, shard),
            ).subset_of(#[trigger] writes[i]),
        forall|i: int| 0 <= i < n ==> #[trigger] local[i] != SlotView::Failed,
    ensures
        ({
            let base = state::reads_of(shards::held_by(s, shard_count, shard), base_keys);
            let seen = reorder::installed(s, slots, failed, n)->0;
            match read::replay(
                read::state_of(base.restrict(keys)),
                local,
                writes,
                keys,
                n,
            ) {
                Replay::Reached(found) => state::reads_of(found, keys) == state::reads_of(
                    seen,
                    keys,
                ),
                _ => false,
            }
        }),
{
    let held = shards::held_by(s, shard_count, shard);
    let seen = reorder::installed(s, slots, failed, n)->0;
    shards::lemma_replay_base(held, base_keys, keys);
    assert(held.restrict(keys) =~= s.restrict(keys));
    shards::lemma_replay_on_shard(s, slots, failed, shard_count, shard, local, writes, keys, n);
    assert(state::reads_of(seen.restrict(keys), keys) =~= state::reads_of(seen, keys));
}

/// Every shard of a cluster that ran ahead holds, once it has installed its slots, its
/// part of the state to which the transactions that failed nowhere lead in order.
pub proof fn lemma_cluster_is_serial(
    s: State,
    txs: Seq<OrderedTxView>,
    plan: SccBatchPlan,
    slots: Seq<SlotView>,
    failed: Set<usize>,
    shard_count: u64,
    shard: ShardId,
    local: Seq<SlotView>,
)
    requires
        tree::is_tree(s),
        speculation::orderly_kept(txs, failed),
        speculation::speculated(s, txs, plan, slots, failed),
        serial::fits(s, speculation::kept(txs, failed, txs.len() as int)),
        shards::slots_of_shard(slots, failed, shard_count, shard, local),
    ensures
        reorder::installed(
            shards::held_by(s, shard_count, shard),
            local,
            reorder::failed_slots(local),
            local.len() as int,
        ) == Some(
            shards::held_by(
                serial::run_txs(s, speculation::kept(txs, failed, txs.len() as int)),
                shard_count,
                shard,
            ),
        ),
{
    speculation::lemma_speculation_is_serial(s, txs, plan, slots, failed);
    shards::lemma_install_on_shard(
        s,
        slots,
        failed,
        shard_count,
        shard,
        local,
        slots.len() as int,
    );
}

} // verus!
