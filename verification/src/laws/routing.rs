//! Which shard a key lives on, and who takes part in a transaction.

use crate::collections::SortKey;
use crate::executor;
use crate::model::{Inode, Key, NodeKind, ShardId, WriteOpView};
use crate::path::Path;
use crate::router;
use crate::storage;
use vstd::bytes::{spec_u32_to_le_bytes, spec_u64_to_le_bytes};
use vstd::prelude::*;
use vstd::utf8::encode_utf8;

verus! {

/// One byte more is mixed into the hash of those before it, and the hash is multiplied,
/// modulo a power of two. The hash of nothing is the offset.
pub proof fn lemma_hash(bytes: Seq<u8>, byte: u8)
    ensures
        router::hash_of(Seq::empty()) == 14_695_981_039_346_656_037u64,
        router::hash_of(bytes.push(byte)) as int == ((router::hash_of(bytes) ^ byte as u64) as int
            * 1_099_511_628_211) % (u64::MAX + 1),
{
    assert(bytes.push(byte).drop_last() =~= bytes);
    let h = router::hash_of(bytes) ^ byte as u64;
    vstd::arithmetic::div_mod::lemma_mod_bound(
        h as int * 1_099_511_628_211,
        0x1_0000_0000_0000_0000,
    );
}

/// A key lives on one of the shards: that which the hash of its text picks, whatever else
/// there is.
pub proof fn lemma_home(shard_count: u64, key: Path)
    requires
        shard_count > 0,
    ensures
        router::shard_of(shard_count, key) < shard_count,
        exists|times: int|
            router::hash_of(encode_utf8(key)) == #[trigger] (times * shard_count)
                + router::shard_of(shard_count, key),
{
    let h = router::hash_of(encode_utf8(key)) as int;
    let n = shard_count as int;
    vstd::arithmetic::div_mod::lemma_fundamental_div_mod(h, n);
    vstd::arithmetic::mul::lemma_mul_is_commutative(n, h / n);
    assert(h == (h / n) * n + h % n);
}

/// The part of a set of keys on a shard, and the shards of a set of keys.
pub proof fn lemma_parts(shard_count: u64, keys: Set<Path>, key: Path, shard: ShardId)
    ensures
        router::local_part(shard_count, keys, shard).contains(key) <==> keys.contains(key)
            && router::shard_of(shard_count, key) == shard,
        router::shards_of(shard_count, keys).contains(shard) <==> exists|k: Path| #[trigger]
            keys.contains(k) && router::shard_of(shard_count, k) == shard,
{
}

/// The shards of the keys of a transaction take part in it. Those of the keys that it
/// writes run it; where it writes nothing, that of the first key that it reads does. The
/// others serve reads only.
pub proof fn lemma_who_takes_part(
    shard_count: u64,
    read_set: Set<Path>,
    write_set: Set<Path>,
    first: Path,
    shard: ShardId,
)
    requires
        read_set.contains(first),
        forall|k: Path| #[trigger] read_set.contains(k) ==> k == first || Key::before(first, k),
    ensures
        ({
            let p = router::participants_of(shard_count, read_set, write_set);
            &&& p.all.contains(shard) <==> exists|k: Path| #[trigger]
                router::shard_of(shard_count, k) == shard && (read_set.contains(k)
                    || write_set.contains(k))
            &&& p.active.contains(shard) <==> if exists|k: Path| #[trigger]
                write_set.contains(k) {
                exists|k: Path| #[trigger]
                    write_set.contains(k) && router::shard_of(shard_count, k) == shard
            } else {
                router::shard_of(shard_count, first) == shard
            }
            &&& p.passive.contains(shard) <==> p.all.contains(shard) && !p.active.contains(shard)
        }),
{
    let p = router::participants_of(shard_count, read_set, write_set);
    let both = read_set.union(write_set);
    if exists|k: Path| #[trigger]
        router::shard_of(shard_count, k) == shard && (read_set.contains(k)
            || write_set.contains(k)) {
        let k = choose|k: Path| #[trigger]
            router::shard_of(shard_count, k) == shard && (read_set.contains(k)
                || write_set.contains(k));
        assert(both.contains(k));
    }
    if p.all.contains(shard) {
        let k = choose|k: Path| #[trigger]
            both.contains(k) && router::shard_of(shard_count, k) == shard;
        assert(router::shard_of(shard_count, k) == shard);
    }
    if forall|k: Path| !write_set.contains(k) {
        assert(write_set =~= Set::<Path>::empty());
        let chosen = router::first_key(read_set);
        assert(read_set.contains(chosen) && (chosen == first || Key::before(chosen, first)));
        if chosen != first {
            <Key as SortKey>::before_transitive(first, chosen, first);
            <Key as SortKey>::before_irreflexive(first);
        }
    }
}

/// Where a transaction has no keys, nobody takes part in it.
pub proof fn lemma_nobody_takes_part(shard_count: u64, shard: ShardId)
    ensures
        !router::participants_of(shard_count, Set::empty(), Set::empty()).all.contains(shard),
        !router::participants_of(shard_count, Set::empty(), Set::empty()).active.contains(shard),
        !router::participants_of(shard_count, Set::empty(), Set::empty()).passive.contains(shard),
{
}

/// One shard of a set answers, and it is the one with the lowest number.
pub proof fn lemma_one_answers(shards: Set<ShardId>, a: ShardId, b: ShardId)
    requires
        router::least_shard(shards, a),
    ensures
        shards.contains(a),
        shards.contains(b) ==> a <= b,
        router::least_shard(shards, b) <==> a == b,
{
}

/// A shard keeps of a list of writes those to its keys, in their order.
pub proof fn lemma_own_writes(
    writes: Seq<WriteOpView>,
    last: WriteOpView,
    shard: ShardId,
    shard_count: u64,
)
    ensures
        executor::local_writes(Seq::empty(), shard, shard_count) == Seq::<WriteOpView>::empty(),
        executor::local_writes(writes.push(last), shard, shard_count) == if router::shard_of(
            shard_count,
            match last {
                WriteOpView::Put { key, .. } => key,
                WriteOpView::Delete { key } => key,
            },
        ) == shard {
            executor::local_writes(writes, shard, shard_count).push(last)
        } else {
            executor::local_writes(writes, shard, shard_count)
        },
{
    reveal(Seq::filter);
    assert(writes.push(last).drop_last() =~= writes);
}

/// An inode is stored as the number of its kind and its count. What is stored is read
/// back unchanged, and different inodes are stored differently.
pub proof fn lemma_stored_inode(inode: Inode, other: Inode)
    ensures
        storage::inode_bytes(inode) == spec_u32_to_le_bytes(
            if inode.kind == NodeKind::Directory {
                1
            } else {
                0
            },
        ) + spec_u64_to_le_bytes(inode.child_count),
        storage::inode_in(storage::inode_bytes(inode)) == inode,
        storage::inode_bytes(inode) == storage::inode_bytes(other) ==> inode == other,
{
    storage::lemma_inode_round_trip(inode);
    storage::lemma_inode_round_trip(other);
}

} // verus!
