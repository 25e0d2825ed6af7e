//! What the shards hold and do together is what one would hold and do alone.

use crate::checker::merge;
use crate::engine::reads::CollectorView;
use crate::engine::reorder;
use crate::executor;
use crate::laws::effects;
use crate::model::{ShardId, WriteOpView};
use crate::path::Path;
use crate::router;
use crate::scc::commit::SlotView;
use crate::scc::delta;
use crate::scc::delta::DeltaOpView;
use crate::scc::read;
use crate::scc::read::Replay;
use crate::state;
use crate::state::State;
use vstd::prelude::*;

verus! {

/// All keys that live on a shard.
pub open spec fn keys_on(shard_count: u64, shard: ShardId) -> Set<Path> {
    Set::new(|k: Path| router::shard_of(shard_count, k) == shard)
}

/// The part of a state that a shard holds.
pub open spec fn held_by(s: State, shard_count: u64, shard: ShardId) -> State {
    s.restrict(keys_on(shard_count, shard))
}

/// Every key lives on one shard, and that shard exists.
pub proof fn lemma_one_home(shard_count: u64, key: Path)
    requires
        shard_count > 0,
    ensures
        router::shard_of(shard_count, key) < shard_count,
        forall|shard: ShardId| #[trigger]
            keys_on(shard_count, shard).contains(key) <==> shard == router::shard_of(
                shard_count,
                key,
            ),
{
}

/// A shard that makes its part of some writes holds its part of what all writes make.
pub proof fn lemma_writes_on_shard(
    s: State,
    writes: Seq<WriteOpView>,
    shard_count: u64,
    shard: ShardId,
)
    ensures
        state::apply_writes(
            held_by(s, shard_count, shard),
            executor::local_writes(writes, shard, shard_count),
        ) == held_by(state::apply_writes(s, writes), shard_count, shard),
    decreases writes.len(),
{
    reveal(Seq::filter);
    let local = executor::local_writes(writes, shard, shard_count);
    if writes.len() > 0 {
        let front = writes.drop_last();
        lemma_writes_on_shard(s, front, shard_count, shard);
        let front_local = executor::local_writes(front, shard, shard_count);
        let before = state::apply_writes(s, front);
        if router::shard_of(shard_count, writes.last().target()) == shard {
            assert(local =~= front_local.push(writes.last()));
            assert(local.drop_last() =~= front_local);
        } else {
            assert(local =~= front_local);
        }
        assert(state::apply_writes(held_by(s, shard_count, shard), local) =~= held_by(
            state::apply_writes(s, writes),
            shard_count,
            shard,
        ));
    }
}

/// A shard that reads its part of some keys finds what is there.
pub proof fn lemma_reads_on_shard(s: State, keys: Set<Path>, shard_count: u64, shard: ShardId)
    ensures
        state::reads_of(
            held_by(s, shard_count, shard),
            router::local_part(shard_count, keys, shard),
        ) == state::reads_of(s, router::local_part(shard_count, keys, shard)),
{
    let part = router::local_part(shard_count, keys, shard);
    let a = state::reads_of(held_by(s, shard_count, shard), part);
    let b = state::reads_of(s, part);
    assert(a.dom() =~= b.dom());
    assert forall|k: Path| a.contains_key(k) implies #[trigger] a[k] == b[k] by {
        assert(part.contains(k));
    }
    assert(a =~= b);
}

/// The shards from which a transaction's reads are known.
pub open spec fn known_shards(v: CollectorView, own: ShardId) -> Set<ShardId> {
    v.received.insert(own)
}

/// What was gathered so far are the reads of `s` from the shards that are known.
pub open spec fn gathered(v: CollectorView, s: State, own: ShardId) -> bool {
    v.full_reads == state::reads_of(
        s,
        v.read_set.filter(
            |k: Path| known_shards(v, own).contains(router::shard_of(v.shard_count, k)),
        ),
    )
}

/// Gathering begins with the reads of this shard.
pub proof fn lemma_gathering_begins(v: CollectorView, s: State, own: ShardId)
    requires
        v.received == Set::<ShardId>::empty(),
        v.full_reads == state::reads_of(
            s,
            router::local_part(v.shard_count, v.read_set, own),
        ),
    ensures
        gathered(v, s, own),
{
    let part = v.read_set.filter(
        |k: Path| known_shards(v, own).contains(router::shard_of(v.shard_count, k)),
    );
    assert(part =~= router::local_part(v.shard_count, v.read_set, own));
}

/// A message with the reads of a shard adds them.
pub proof fn lemma_gathering_goes_on(
    v: CollectorView,
    msg: crate::engine::reads::LocalReadResult,
    s: State,
    own: ShardId,
)
    requires
        gathered(v, s, own),
        v.accepts(msg),
        msg.reads@ == state::reads_of(
            s,
            router::local_part(v.shard_count, v.read_set, msg.from_shard),
        ),
    ensures
        gathered(v.with(msg), s, own),
{
    let w = v.with(msg);
    let before = v.read_set.filter(
        |k: Path| known_shards(v, own).contains(router::shard_of(v.shard_count, k)),
    );
    let after = w.read_set.filter(
        |k: Path| known_shards(w, own).contains(router::shard_of(w.shard_count, k)),
    );
    let part = router::local_part(v.shard_count, v.read_set, msg.from_shard);
    assert(after =~= before.union(part));
    assert(w.full_reads =~= state::reads_of(s, after));
}

/// Once every shard that holds a key has sent its reads, the reads are complete: nothing
/// is left to refuse.
pub proof fn lemma_gathering_ends(v: CollectorView, s: State, own: ShardId)
    requires
        gathered(v, s, own),
        v.expected.subset_of(v.received),
        router::shards_of(v.shard_count, v.read_set).remove(own).subset_of(v.expected),
    ensures
        v.full_reads == state::reads_of(s, v.read_set),
        v.full_reads.dom() == v.read_set,
{
    let part = v.read_set.filter(
        |k: Path| known_shards(v, own).contains(router::shard_of(v.shard_count, k)),
    );
    assert forall|k: Path| v.read_set.contains(k) implies part.contains(k) by {
        let shard = router::shard_of(v.shard_count, k);
        assert(router::shards_of(v.shard_count, v.read_set).contains(shard));
        if shard != own {
            assert(router::shards_of(v.shard_count, v.read_set).remove(own).contains(shard));
            assert(v.expected.contains(shard));
        }
    }
    assert(part =~= v.read_set);
    assert(v.full_reads.dom() =~= v.read_set);
}

/// The parts that all shards hold, put together, are the whole; nothing is misplaced.
pub proof fn lemma_parts_make_whole(s: State, shard_count: u64, dumps: Seq<(ShardId, State)>)
    requires
        shard_count > 0,
        dumps.len() == shard_count,
        forall|i: int|
            0 <= i < dumps.len() ==> (#[trigger] dumps[i]).0 == i && dumps[i].1 == held_by(
                s,
                shard_count,
                i as ShardId,
            ),
    ensures
        merge::all_placed(shard_count, dumps, dumps.len() as int),
        merge::merged(dumps, dumps.len() as int) == s,
{
    assert forall|i: int, key: Path|
        0 <= i < dumps.len() && #[trigger] dumps[i].1.contains_key(
            key,
        ) implies merge::well_placed(shard_count, dumps, i, key) by {
        assert(router::shard_of(shard_count, key) == i);
        if merge::dumped(dumps, key, i) {
            let j = choose|j: int| 0 <= j < i && (#[trigger] dumps[j]).1.contains_key(key);
            assert(router::shard_of(shard_count, key) == j);
        }
    }
    lemma_merged_parts(s, shard_count, dumps, dumps.len() as int);
    let m = merge::merged(dumps, dumps.len() as int);
    assert forall|k: Path| #[trigger] effects::inode_at(m, k) == effects::inode_at(s, k) by {
        lemma_one_home(shard_count, k);
    }
    effects::lemma_same_inodes(m, s);
}

proof fn lemma_merged_parts(s: State, shard_count: u64, dumps: Seq<(ShardId, State)>, n: int)
    requires
        0 <= n <= dumps.len(),
        dumps.len() == shard_count,
        forall|i: int|
            0 <= i < dumps.len() ==> (#[trigger] dumps[i]).0 == i && dumps[i].1 == held_by(
                s,
                shard_count,
                i as ShardId,
            ),
    ensures
        forall|k: Path| #[trigger]
            effects::inode_at(merge::merged(dumps, n), k) == (if router::shard_of(shard_count, k)
                < n {
                effects::inode_at(s, k)
            } else {
                None
            }),
    decreases n,
{
    if n > 0 {
        lemma_merged_parts(s, shard_count, dumps, n - 1);
        let before = merge::merged(dumps, n - 1);
        let after = merge::merged(dumps, n);
        assert(dumps[n - 1].1 == held_by(s, shard_count, (n - 1) as ShardId));
        assert forall|k: Path| #[trigger] effects::inode_at(after, k) == (if router::shard_of(
            shard_count,
            k,
        ) < n {
            effects::inode_at(s, k)
        } else {
            None
        }) by {
            assert(effects::inode_at(before, k) == (if router::shard_of(shard_count, k) < n - 1 {
                effects::inode_at(s, k)
            } else {
                None
            }));
        }
    }
}

/// The part of changes that is about keys of `keys`, made on the part of a state that is
/// about these keys, gives the part of what all changes give.
pub proof fn lemma_changes_on_part(s: State, ops: Seq<DeltaOpView>, keys: Set<Path>)
    requires
        delta::apply_delta(s, ops) is Some,
    ensures
        delta::apply_delta(s.restrict(keys), delta::changes_within(ops, keys)) == Some(
            delta::apply_delta(s, ops)->0.restrict(keys),
        ),
    decreases ops.len(),
{
    reveal(Seq::filter);
    let local = delta::changes_within(ops, keys);
    if ops.len() > 0 {
        let front = ops.drop_last();
        let before = delta::apply_delta(s, front)->0;
        let after = delta::apply_delta(s, ops)->0;
        lemma_changes_on_part(s, front, keys);
        let front_local = delta::changes_within(front, keys);
        if keys.contains(ops.last().target()) {
            assert(local =~= front_local.push(ops.last()));
            assert(local.drop_last() =~= front_local);
            assert(delta::apply_op(before.restrict(keys), ops.last()) is Some);
            let t = delta::apply_op(before.restrict(keys), ops.last())->0;
            assert(t =~= after.restrict(keys));
        } else {
            assert(local =~= front_local);
            assert(before.restrict(keys) =~= after.restrict(keys));
        }
    }
}

/// The part of a slot that is about keys of `keys`.
pub open spec fn slot_part(slot: SlotView, keys: Set<Path>) -> SlotView {
    match slot {
        SlotView::Delta(ops) => if delta::changes_within(ops, keys).len() == 0 {
            SlotView::NoOp
        } else {
            SlotView::Delta(delta::changes_within(ops, keys))
        },
        _ => slot,
    }
}

/// The slots of one shard: where a transaction failed, its slot says so or, where the
/// transaction has no keys here, holds nothing; else it holds the part of this shard.
pub open spec fn slots_of_shard(
    slots: Seq<SlotView>,
    failed: Set<usize>,
    shard_count: u64,
    shard: ShardId,
    local: Seq<SlotView>,
) -> bool {
    &&& local.len() == slots.len()
    &&& slots.len() <= usize::MAX
    &&& forall|i: int|
        0 <= i < slots.len() ==> if failed.contains(i as usize) {
            (#[trigger] local[i]) == SlotView::Failed || local[i] == SlotView::NoOp
        } else {
            local[i] == slot_part(slots[i], keys_on(shard_count, shard))
        }
}

/// A shard that installs its slots, but for those that failed there, holds its part of
/// what installing all slots, but for those that failed anywhere, gives.
pub proof fn lemma_install_on_shard(
    s: State,
    slots: Seq<SlotView>,
    failed: Set<usize>,
    shard_count: u64,
    shard: ShardId,
    local: Seq<SlotView>,
    n: int,
)
    requires
        0 <= n <= slots.len(),
        slots_of_shard(slots, failed, shard_count, shard, local),
        reorder::installed(s, slots, failed, n) is Some,
    ensures
        reorder::installed(
            held_by(s, shard_count, shard),
            local,
            reorder::failed_slots(local),
            n,
        ) == Some(held_by(reorder::installed(s, slots, failed, n)->0, shard_count, shard)),
    decreases n,
{
    if n > 0 {
        let i = n - 1;
        lemma_install_on_shard(s, slots, failed, shard_count, shard, local, i);
        let before = reorder::installed(s, slots, failed, i)->0;
        let keys = keys_on(shard_count, shard);
        assert(local[i] == local[i]);
        if failed.contains(i as usize) {
            assert(local[i] == SlotView::Failed || local[i] == SlotView::NoOp);
        } else {
            match slots[i] {
                SlotView::Delta(ops) => {
                    lemma_changes_on_part(before, ops, keys);
                    if delta::changes_within(ops, keys).len() == 0 {
                        assert(delta::apply_delta(
                            before.restrict(keys),
                            delta::changes_within(ops, keys),
                        ) == Some(before.restrict(keys)));
                    }
                },
                _ => {},
            }
        }
    }
}

/// What the changes are about.
pub open spec fn change_targets(ops: Seq<DeltaOpView>) -> Set<Path> {
    Set::new(|k: Path| exists|i: int| 0 <= i < ops.len() && (#[trigger] ops[i]).target() == k)
}

/// Changes to keys that are not asked for do not matter.
proof fn lemma_none_within(ops: Seq<DeltaOpView>, keys: Set<Path>)
    requires
        change_targets(ops).disjoint(keys),
    ensures
        delta::changes_within(ops, keys) == Seq::<DeltaOpView>::empty(),
    decreases ops.len(),
{
    reveal(Seq::filter);
    if ops.len() > 0 {
        let front = ops.drop_last();
        assert(change_targets(ops).contains(ops.last().target())) by {
            assert(ops[ops.len() - 1].target() == ops.last().target());
        }
        assert(change_targets(front).disjoint(keys)) by {
            assert forall|k: Path| change_targets(front).contains(k) implies !keys.contains(k) by {
                let i = choose|i: int| 0 <= i < front.len() && (#[trigger] front[i]).target() == k;
                assert(ops[i].target() == k);
                assert(change_targets(ops).contains(k));
            }
        }
        lemma_none_within(front, keys);
    }
}

/// The part of a part.
proof fn lemma_within_twice(ops: Seq<DeltaOpView>, keys: Set<Path>, inner: Set<Path>)
    requires
        inner.subset_of(keys),
    ensures
        delta::changes_within(delta::changes_within(ops, keys), inner) == delta::changes_within(
            ops,
            inner,
        ),
    decreases ops.len(),
{
    reveal(Seq::filter);
    if ops.len() > 0 {
        let front = ops.drop_last();
        lemma_within_twice(front, keys, inner);
        let part = delta::changes_within(front, keys);
        if keys.contains(ops.last().target()) {
            assert(delta::changes_within(ops, keys) =~= part.push(ops.last()));
            assert(part.push(ops.last()).drop_last() =~= part);
        }
    }
}

/// What a worker replays on its shard is what it must see there: the state to which the
/// slots before `n` lead, as far as it is about the keys that the worker reads. A slot
/// that failed elsewhere holds nothing here; one that failed here would stop the replay.
pub proof fn lemma_replay_on_shard(
    s: State,
    slots: Seq<SlotView>,
    failed: Set<usize>,
    shard_count: u64,
    shard: ShardId,
    local: Seq<SlotView>,
    writes: Seq<Set<Path>>,
    keys: Set<Path>,
    n: int,
)
    requires
        0 <= n <= slots.len(),
        slots_of_shard(slots, failed, shard_count, shard, local),
        reorder::installed(s, slots, failed, n) is Some,
        keys.subset_of(keys_on(shard_count, shard)),
        writes.len() == slots.len(),
        forall|i: int|
            0 <= i < n && slots[i] is Delta && !failed.contains(i as usize) ==> change_targets(
                slots[i]->Delta_0,
            ).intersect(keys_on(shard_count, shard)).subset_of(#[trigger] writes[i]),
        forall|i: int| 0 <= i < n ==> #[trigger] local[i] != SlotView::Failed,
    ensures
        read::replay(s.restrict(keys), local, writes, keys, n) == Replay::Reached(
            reorder::installed(s, slots, failed, n)->0.restrict(keys),
        ),
    decreases n,
{
    if n > 0 {
        let i = n - 1;
        lemma_replay_on_shard(
            s,
            slots,
            failed,
            shard_count,
            shard,
            local,
            writes,
            keys,
            i,
        );
        let before = reorder::installed(s, slots, failed, i)->0;
        let on = keys_on(shard_count, shard);
        assert(local[i] != SlotView::Failed);
        if !failed.contains(i as usize) {
            match slots[i] {
                SlotView::Delta(ops) => {
                    let part = delta::changes_within(ops, on);
                    lemma_changes_on_part(before, ops, keys);
                    lemma_within_twice(ops, on, keys);
                    if part.len() == 0 {
                        assert(delta::changes_within(part, keys) =~= Seq::<DeltaOpView>::empty())
                            by {
                            reveal(Seq::filter);
                        }
                    } else if writes[i].disjoint(keys) {
                        assert(change_targets(ops).disjoint(keys)) by {
                            assert forall|k: Path| change_targets(ops).contains(
                                k,
                            ) implies !keys.contains(k) by {
                                if keys.contains(k) {
                                    assert(on.contains(k));
                                    assert(change_targets(ops).intersect(on).contains(k));
                                    assert(writes[i].contains(k));
                                }
                            }
                        }
                        lemma_none_within(ops, keys);
                    }
                },
                _ => {},
            }
        }
    }
}

/// The base of a replay holds what was stored of the keys when the batch began.
pub proof fn lemma_replay_base(s: State, base_keys: Set<Path>, keys: Set<Path>)
    requires
        keys.subset_of(base_keys),
    ensures
        read::state_of(state::reads_of(s, base_keys).restrict(keys)) == s.restrict(keys),
{
    let a = read::state_of(state::reads_of(s, base_keys).restrict(keys));
    assert(a.dom() =~= s.restrict(keys).dom());
    assert(a =~= s.restrict(keys));
}

} // verus!
