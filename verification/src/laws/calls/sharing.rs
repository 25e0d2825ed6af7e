//! Calls that ask where keys live, and calls on the locks.

use crate::collections;
use crate::collections::{OrdSet, SortKey};
use crate::engine::calvin::result_shard_of;
use crate::engine::reads::LockWait;
use crate::error::{Error, LockFault, Result};
use crate::laws::queues;
use crate::laws::routing;
use crate::lock;
use crate::lock::{LockGrant, LockTable, Queues};
use crate::model::{Key, OrderedTx, ShardId, TxId};
use crate::path::Path;
use crate::router;
use crate::router::{Participants, ShardLayout};
use vstd::prelude::*;
use vstd::utf8::encode_utf8;

verus! {

/// Where a key lives is told by its text and the number of shards alone, and is one of the
/// shards: the remainder of the hash.
pub proof fn lemma_home_call(layout: &ShardLayout, key: &Key, r: ShardId)
    requires
        layout.wf(),
        call_ensures(ShardLayout::shard_for_key, (layout, key), r),
    ensures
        r < layout.shard_count,
        exists|times: int|
            router::hash_of(encode_utf8(key@)) == #[trigger] (times * layout.shard_count) + r,
{
    routing::lemma_home(layout.shard_count, key@);
}

/// The shards of keys are those on which one of them lives; the keys of a shard are those
/// that live on it.
pub proof fn lemma_shards_call(
    layout: &ShardLayout,
    keys: &OrdSet<Key>,
    shards: OrdSet<ShardId>,
    shard: ShardId,
    own: OrdSet<Key>,
    key: &Key,
    home: ShardId,
)
    requires
        layout.wf(),
        call_ensures(ShardLayout::shards_for_keys, (layout, keys), shards),
        call_ensures(ShardLayout::local_keys_of, (layout, keys, shard), own),
        call_ensures(ShardLayout::shard_for_key, (layout, key), home),
    ensures
        keys@.contains(key@) ==> shards@.contains(home),
        own@.contains(key@) <==> keys@.contains(key@) && home == shard,
        shards@.contains(shard) <==> exists|k: Path| #[trigger] own@.contains(k),
{
    let count = layout.shard_count;
    routing::lemma_parts(count, keys@, key@, shard);
    routing::lemma_parts(count, keys@, key@, home);
    if shards@.contains(shard) {
        let k = choose|k: Path| #[trigger]
            keys@.contains(k) && router::shard_of(count, k) == shard;
        assert(own@.contains(k));
    }
    if exists|k: Path| #[trigger] own@.contains(k) {
        let k = choose|k: Path| #[trigger] own@.contains(k);
        assert(keys@.contains(k) && router::shard_of(count, k) == shard);
    }
}

/// The shards of all keys of a transaction take part in it; those of the keys that it
/// writes run it, or, where it writes nothing, that of the first key that it reads; the
/// rest serve reads. The one that runs it and has the lowest number answers.
pub proof fn lemma_participants_call(
    layout: &ShardLayout,
    tx: &OrderedTx,
    r: Participants,
    answers: Option<ShardId>,
    first: Path,
    shard: ShardId,
)
    requires
        layout.wf(),
        call_ensures(ShardLayout::participants, (layout, tx), r),
        call_ensures(ShardLayout::result_shard, (layout, tx), answers),
        tx@.read_set.contains(first),
        forall|k: Path| #[trigger]
            tx@.read_set.contains(k) ==> k == first || Key::before(first, k),
    ensures
        r.all@.contains(shard) <==> exists|k: Path| #[trigger]
            router::shard_of(layout.shard_count, k) == shard && (tx@.read_set.contains(k)
                || tx@.write_set.contains(k)),
        r.active@.contains(shard) <==> if exists|k: Path| #[trigger] tx@.write_set.contains(k) {
            exists|k: Path| #[trigger]
                tx@.write_set.contains(k) && router::shard_of(layout.shard_count, k) == shard
        } else {
            router::shard_of(layout.shard_count, first) == shard
        },
        r.passive@.contains(shard) <==> r.all@.contains(shard) && !r.active@.contains(shard),
        answers is Some,
        r.active@.contains(answers->0),
        r.active@.contains(shard) ==> answers->0 <= shard,
{
    routing::lemma_who_takes_part(
        layout.shard_count,
        tx@.read_set,
        tx@.write_set,
        first,
        shard,
    );
}

/// The keys of a transaction on a shard: to read those that it reads, to write those that
/// it writes, and to lock both.
pub proof fn lemma_local_keys_call(
    layout: &ShardLayout,
    tx: &OrderedTx,
    shard: ShardId,
    reads: OrdSet<Key>,
    writes: OrdSet<Key>,
    locks: OrdSet<Key>,
    key: Path,
)
    requires
        layout.wf(),
        call_ensures(ShardLayout::local_read_keys, (layout, tx, shard), reads),
        call_ensures(ShardLayout::local_write_keys, (layout, tx, shard), writes),
        call_ensures(ShardLayout::local_lock_keys, (layout, tx, shard), locks),
    ensures
        reads@.contains(key) <==> tx@.read_set.contains(key) && router::shard_of(
            layout.shard_count,
            key,
        ) == shard,
        writes@.contains(key) <==> tx@.write_set.contains(key) && router::shard_of(
            layout.shard_count,
            key,
        ) == shard,
        locks@.contains(key) <==> reads@.contains(key) || writes@.contains(key),
{
}

/// Who lines up comes last at each of its keys; whoever was first there before is first
/// still.
pub proof fn lemma_enqueue_call(
    table: &mut LockTable,
    tx_id: TxId,
    keys: &OrdSet<Key>,
    key: Path,
    other: TxId,
)
    requires
        call_ensures(LockTable::enqueue, (table, tx_id, keys), ()),
    ensures
        keys@.contains(key) ==> final(table)@.contains_key(key) && final(table)@[key].last()
            == tx_id,
        keys@.contains(key) && old(table)@.contains_key(key) ==> final(table)@[key].drop_last()
            == old(table)@[key],
        keys@.contains(key) && !old(table)@.contains_key(key) ==> final(table)@[key].len() == 1,
        !keys@.contains(key) ==> (final(table)@.contains_key(key)
            <==> old(table)@.contains_key(key)),
        !keys@.contains(key) && old(table)@.contains_key(key) ==> final(table)@[key]
            == old(table)@[key],
        lock::holds(old(table)@, other, key) ==> lock::holds(final(table)@, other, key),
{
    queues::lemma_enqueue(old(table)@, tx_id, keys@, key);
}

/// At the start each key at which someone waits is granted, once, to who is first there.
pub proof fn lemma_first_grants_call(
    table: &LockTable,
    r: Vec<(TxId, LockGrant)>,
    g: (TxId, Path),
)
    requires
        call_ensures(LockTable::grant_initial_heads, (table,), r),
        table@.dom().finite(),
    ensures
        lock::grant_views(r@).contains(g) <==> table@.contains_key(g.1) && table@[g.1][0] == g.0,
        forall|i: int, j: int|
            0 <= i < j < r@.len() ==> Key::before(
                (#[trigger] lock::grant_views(r@)[i]).1,
                (#[trigger] lock::grant_views(r@)[j]).1,
            ),
{
    let keys = collections::sorted::<Key>(table@.dom());
    collections::lemma_sorted_of_finite::<Key>(table@.dom());
    let grants = lock::grant_views(r@);
    if grants.contains(g) {
        let i = choose|i: int| 0 <= i < grants.len() && grants[i] == g;
        assert(grants[i] == (table@[keys[i]][0], keys[i]));
        assert(keys.to_set().contains(keys[i]));
    }
    if table@.contains_key(g.1) && table@[g.1][0] == g.0 {
        assert(keys.to_set().contains(g.1));
        let i = choose|i: int| 0 <= i < keys.len() && keys[i] == g.1;
        assert(grants[i] == g);
    }
    assert forall|i: int, j: int| 0 <= i < j < r@.len() implies Key::before(
        (#[trigger] grants[i]).1,
        (#[trigger] grants[j]).1,
    ) by {
        assert(grants[i] == (table@[keys[i]][0], keys[i]));
        assert(grants[j] == (table@[keys[j]][0], keys[j]));
        assert(<Key as SortKey>::before(keys[i], keys[j]));
    }
}

/// Keys are let go if and only if who lets go is first at each of them. It is then gone
/// from their queues, and who came next is first and is granted the key; no other key is
/// granted, and no other queue changes.
pub proof fn lemma_release_call(
    table: &mut LockTable,
    tx_id: TxId,
    keys: &OrdSet<Key>,
    grants: &mut Vec<(TxId, LockGrant)>,
    r: Result<()>,
    key: Path,
    g: (TxId, Path),
)
    requires
        call_ensures(LockTable::release_and_grant_next, (table, tx_id, keys, grants), r),
        keys@.finite(),
    ensures
        r is Ok <==> forall|k: Path| #[trigger]
            keys@.contains(k) ==> lock::holds(old(table)@, tx_id, k),
        r is Ok ==> {
            let before = lock::grant_views(old(grants)@);
            let after = lock::grant_views(final(grants)@);
            &&& keys@.contains(key) ==> (final(table)@.contains_key(key)
                <==> old(table)@[key].len() > 1)
            &&& keys@.contains(key) && final(table)@.contains_key(key)
                ==> seq![tx_id] + final(table)@[key] == old(table)@[key]
            &&& !keys@.contains(key) ==> (final(table)@.contains_key(key)
                <==> old(table)@.contains_key(key))
            &&& !keys@.contains(key) && old(table)@.contains_key(key) ==> final(table)@[key]
                == old(table)@[key]
            &&& before.len() <= after.len() && after.take(before.len() as int) == before
            &&& after.skip(before.len() as int).contains(g) <==> keys@.contains(g.1)
                && final(table)@.contains_key(g.1) && final(table)@[g.1].first() == g.0
        },
        r matches Err(error) ==> match error {
            Error::LockInvariant(LockFault::MissingQueue { key: k }) => keys@.contains(k@)
                && !old(table)@.contains_key(k@),
            Error::LockInvariant(LockFault::NotHead { tx_id: t, key: k, head }) => {
                &&& t == tx_id && head != tx_id
                &&& keys@.contains(k@) && old(table)@.contains_key(k@)
                &&& old(table)@[k@].first() == head
            },
            _ => false,
        },
{
    let order = collections::sorted::<Key>(keys@);
    collections::lemma_sorted_of_finite::<Key>(keys@);
    let queues: Queues = old(table)@;
    match r {
        Ok(_) => {
            queues::lemma_let_go(queues, tx_id, keys@, key);
            assert forall|i: int| 0 <= i < order.len() implies queues.contains_key(
                #[trigger] order[i],
            ) by {
                assert(order.to_set().contains(order[i]));
                assert(lock::holds(queues, tx_id, order[i]));
            }
            queues::lemma_grants(queues, order, g);
            assert(order.contains(g.1) == order.to_set().contains(g.1));
            let before = lock::grant_views(old(grants)@);
            let after = lock::grant_views(final(grants)@);
            assert(after.take(before.len() as int) =~= before);
            assert(after.skip(before.len() as int) =~= lock::next_grants(queues, order));
        },
        Err(error) => {
            queues::lemma_refused_release(
                queues,
                tx_id,
                order,
                final(table)@,
                lock::grant_views(old(grants)@),
                lock::grant_views(final(grants)@),
                error,
            );
            assert forall|k: Path| order.contains(k) implies keys@.contains(k) by {
                assert(order.to_set().contains(k));
            }
        },
    }
}

/// A grant is taken if and only if it is for a key that is waited for and was not granted
/// before; nothing else is noted. The wait is over when every key was granted.
pub proof fn lemma_grant_call(
    wait: &mut LockWait,
    grant: &LockGrant,
    r: Result<()>,
    end: LockWait,
    done: bool,
)
    requires
        call_ensures(LockWait::on_grant, (wait, grant), r),
        end@ == final(wait)@,
        call_ensures(LockWait::is_done, (&end,), done),
    ensures
        r is Ok <==> old(wait)@.keys.contains(grant@) && !old(wait)@.granted.contains(grant@),
        r is Err ==> final(wait)@ == old(wait)@,
        final(wait)@.keys == old(wait)@.keys,
        final(wait)@.tx_id == old(wait)@.tx_id,
        forall|k: Path|
            r is Ok ==> (#[trigger] final(wait)@.granted.contains(k)
                <==> old(wait)@.granted.contains(k) || k == grant@),
        r is Ok ==> (done <==> forall|k: Path| #[trigger]
            old(wait)@.keys.contains(k) ==> old(wait)@.granted.contains(k) || k == grant@),
{
}

/// Who takes part is told by the sets of a transaction alone, and so is who answers; where
/// it writes nothing, that is the shard of the first key that it reads.
pub proof fn lemma_sets_call(
    layout: &ShardLayout,
    reads: &OrdSet<Key>,
    writes: &OrdSet<Key>,
    r: Participants,
    answers: Option<ShardId>,
    coordinator: Option<ShardId>,
    first: Path,
    shard: ShardId,
)
    requires
        layout.wf(),
        call_ensures(ShardLayout::participants_for_sets, (layout, reads, writes), r),
        call_ensures(ShardLayout::result_shard_for_sets, (layout, reads, writes), answers),
        call_ensures(ShardLayout::read_only_coordinator, (layout, reads), coordinator),
        reads@.contains(first),
        forall|k: Path| #[trigger] reads@.contains(k) ==> k == first || Key::before(first, k),
    ensures
        r.all@.contains(shard) <==> exists|k: Path| #[trigger]
            router::shard_of(layout.shard_count, k) == shard && (reads@.contains(k)
                || writes@.contains(k)),
        r.active@.contains(shard) <==> if exists|k: Path| #[trigger] writes@.contains(k) {
            exists|k: Path| #[trigger]
                writes@.contains(k) && router::shard_of(layout.shard_count, k) == shard
        } else {
            router::shard_of(layout.shard_count, first) == shard
        },
        r.passive@.contains(shard) <==> r.all@.contains(shard) && !r.active@.contains(shard),
        answers is Some && r.active@.contains(answers->0),
        r.active@.contains(shard) ==> answers->0 <= shard,
        coordinator == Some(router::shard_of(layout.shard_count, first)),
{
    routing::lemma_who_takes_part(layout.shard_count, reads@, writes@, first, shard);
    let chosen = router::first_key(reads@);
    assert(reads@.contains(chosen) && (chosen == first || Key::before(chosen, first)));
    if chosen != first {
        <Key as SortKey>::before_transitive(first, chosen, first);
        <Key as SortKey>::before_irreflexive(first);
    }
}

/// Nobody coordinates or answers where nothing is read and nothing written.
pub proof fn lemma_no_sets_call(
    layout: &ShardLayout,
    reads: &OrdSet<Key>,
    writes: &OrdSet<Key>,
    r: Participants,
    answers: Option<ShardId>,
    coordinator: Option<ShardId>,
    shard: ShardId,
)
    requires
        layout.wf(),
        call_ensures(ShardLayout::participants_for_sets, (layout, reads, writes), r),
        call_ensures(ShardLayout::result_shard_for_sets, (layout, reads, writes), answers),
        call_ensures(ShardLayout::read_only_coordinator, (layout, reads), coordinator),
        reads@ == Set::<Path>::empty(),
    ensures
        coordinator is None,
        answers is None <==> forall|k: Path| !(#[trigger] writes@.contains(k)),
        writes@ == Set::<Path>::empty() ==> !r.all@.contains(shard) && !r.active@.contains(shard),
{
    if forall|k: Path| !(#[trigger] writes@.contains(k)) {
        assert(writes@ =~= Set::<Path>::empty());
        routing::lemma_nobody_takes_part(layout.shard_count, shard);
    }
}

/// The shard that answers for a transaction under locks runs it, and no other that runs it
/// has a lower number.
pub proof fn lemma_answering_shard_call(
    layout: &ShardLayout,
    tx: &OrderedTx,
    r: ShardId,
    all: Participants,
    shard: ShardId,
)
    requires
        layout.wf(),
        call_ensures(result_shard_of, (layout, tx), r),
        call_ensures(ShardLayout::participants, (layout, tx), all),
    ensures
        all.active@.contains(r),
        all.active@.contains(shard) ==> r <= shard,
{
}

} // verus!
