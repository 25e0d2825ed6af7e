//! Which shard a key lives on, and which shards a transaction involves.

use crate::collections;
use crate::collections::{OrdSet, SortKey};
use crate::model::{Key, OrderedTx, ShardId};
use crate::path::Path;
use vstd::prelude::*;
use vstd::utf8::encode_utf8;

verus! {

const FNV_OFFSET_BASIS: u64 = 14_695_981_039_346_656_037;

const FNV_PRIME: u64 = 1_099_511_628_211;

/// One round of the FNV-1a hash.
pub open spec fn hash_step(hash: u64, byte: u8) -> u64 {
    (((hash ^ (byte as u64)) * 1_099_511_628_211) % 0x1_0000_0000_0000_0000) as u64
}

/// The 64-bit FNV-1a hash of `bytes`.
pub open spec fn hash_of(bytes: Seq<u8>) -> u64
    decreases bytes.len(),
{
    if bytes.len() == 0 {
        14_695_981_039_346_656_037
    } else {
        hash_step(hash_of(bytes.drop_last()), bytes.last())
    }
}

/// The 64-bit FNV-1a hash of `bytes`.
pub fn stable_hash(bytes: &[u8]) -> (r: u64)
    ensures
        r == hash_of(bytes@),
{
    let mut hash = FNV_OFFSET_BASIS;
    let mut i: usize = 0;
    while i < bytes.len()
        invariant
            i <= bytes.len(),
            hash == hash_of(bytes@.take(i as int)),
        decreases bytes.len() - i,
    {
        let mixed: u64 = hash ^ (bytes[i] as u64);
        let ghost before_hash = hash;
        hash = mixed.wrapping_mul(FNV_PRIME);
        i += 1;
        proof {
            let taken = bytes@.take(i as int);
            assert(taken.drop_last() =~= bytes@.take(i - 1));
            assert(taken.last() == bytes@[i - 1]);
            assert(hash == hash_step(before_hash, bytes@[i - 1]));
        }
    }
    assert(bytes@.take(i as int) =~= bytes@);
    hash
}

/// The shard that holds `key` when there are `shard_count` of them.
pub open spec fn shard_of(shard_count: u64, key: Path) -> ShardId {
    hash_of(encode_utf8(key)) % shard_count
}

/// The keys of `keys` that live on `shard_id`.
pub open spec fn local_part(shard_count: u64, keys: Set<Path>, shard_id: ShardId) -> Set<Path> {
    keys.filter(|k: Path| shard_of(shard_count, k) == shard_id)
}

/// The shards on which `keys` live.
pub open spec fn shards_of(shard_count: u64, keys: Set<Path>) -> Set<ShardId> {
    keys.map(|k: Path| shard_of(shard_count, k))
}

/// The first of `keys`.
pub open spec fn first_key(keys: Set<Path>) -> Path {
    choose|k: Path|
        keys.contains(k) && forall|other: Path| #[trigger]
            keys.contains(other) ==> other == k || Key::before(k, other)
}

/// The shards that take part in a transaction. The active ones run it and
/// answer for it; the passive ones only serve reads.
#[verifier::ext_equal]
pub struct ParticipantsView {
    pub all: Set<ShardId>,
    pub active: Set<ShardId>,
    pub passive: Set<ShardId>,
}

/// Who takes part in a transaction that reads `read_set` and writes `write_set`:
/// the shards of all its keys. Active are those of the written keys, or, where
/// nothing is written, that of the first key read.
pub open spec fn participants_of(
    shard_count: u64,
    read_set: Set<Path>,
    write_set: Set<Path>,
) -> ParticipantsView {
    let all = shards_of(shard_count, read_set.union(write_set));
    let active = if write_set != Set::<Path>::empty() {
        shards_of(shard_count, write_set)
    } else if read_set != Set::<Path>::empty() {
        set![shard_of(shard_count, first_key(read_set))]
    } else {
        Set::empty()
    };
    ParticipantsView { all, active, passive: all.difference(active) }
}

/// `shard` is the least of `shards`.
pub open spec fn least_shard(shards: Set<ShardId>, shard: ShardId) -> bool {
    shards.contains(shard) && forall|other: ShardId| #[trigger]
        shards.contains(other) ==> shard <= other
}

/// How many shards there are.
#[derive(Clone, Copy, Debug, PartialEq, Eq, Structural)]
pub struct ShardLayout {
    pub shard_count: u64,
}

/// The shards that take part in a transaction.
#[derive(Debug, PartialEq, Eq)]
pub struct Participants {
    pub all: OrdSet<ShardId>,
    pub active: OrdSet<ShardId>,
    pub passive: OrdSet<ShardId>,
}

impl View for Participants {
    type V = ParticipantsView;

    open spec fn view(&self) -> ParticipantsView {
        ParticipantsView { all: self.all@, active: self.active@, passive: self.passive@ }
    }
}

impl Clone for Participants {
    fn clone(&self) -> (r: Self)
        ensures
            r@ == self@,
    {
        Participants {
            all: self.all.clone(),
            active: self.active.clone(),
            passive: self.passive.clone(),
        }
    }
}

/// The first key of an ascending run is the first of its set.
proof fn lemma_first_key(keys: Seq<Path>)
    requires
        collections::ascending::<Key>(keys),
        keys.len() > 0,
    ensures
        first_key(keys.to_set()) == keys[0],
{
    let s = keys.to_set();
    assert(s.contains(keys[0]));
    assert forall|other: Path| #[trigger] s.contains(other) implies other == keys[0] || Key::before(
        keys[0],
        other,
    ) by {
        let i = choose|i: int| 0 <= i < keys.len() && keys[i] == other;
        if i > 0 {
            assert(Key::before(keys[0], keys[i]));
        }
    }
    let k = first_key(s);
    assert(s.contains(k) && (k == keys[0] || Key::before(keys[0], k)));
    assert(keys[0] == k || Key::before(k, keys[0]));
    if k != keys[0] {
        <Key as SortKey>::before_transitive(k, keys[0], k);
        <Key as SortKey>::before_irreflexive(k);
    }
}

impl ShardLayout {
    /// There is a shard at all.
    pub open spec fn wf(self) -> bool {
        self.shard_count > 0
    }

    pub fn new(shard_count: u64) -> (r: Self)
        requires
            shard_count > 0,
        ensures
            r == (ShardLayout { shard_count }),
            r.wf(),
    {
        ShardLayout { shard_count }
    }

    pub fn shard_for_key(&self, key: &Key) -> (r: ShardId)
        requires
            self.wf(),
        ensures
            r == shard_of(self.shard_count, key@),
            r < self.shard_count,
    {
        stable_hash(key.as_str().as_bytes()) % self.shard_count
    }

    /// Adds the shards of `keys` to `shards`.
    fn add_shards(&self, shards: &mut OrdSet<ShardId>, keys: &OrdSet<Key>)
        requires
            self.wf(),
        ensures
            final(shards)@ == old(shards)@.union(shards_of(self.shard_count, keys@)),
    {
        let n = keys.len();
        let mut i: usize = 0;
        assert(shards@ =~= old(shards)@.union(
            shards_of(self.shard_count, keys.ordered().take(0).to_set()),
        ));
        while i < n
            invariant
                self.wf(),
                i <= n,
                n == keys.ordered().len(),
                shards@ == old(shards)@.union(
                    shards_of(self.shard_count, keys.ordered().take(i as int).to_set()),
                ),
            decreases n - i,
        {
            let key = keys.at(i);
            let shard = self.shard_for_key(key);
            let _ = shards.insert(shard);
            proof {
                collections::lemma_take_to_set(keys.ordered(), i as int);
                lemma_shards_insert(
                    self.shard_count,
                    keys.ordered().take(i as int).to_set(),
                    keys.ordered()[i as int],
                );
            }
            assert(shards@ =~= old(shards)@.union(
                shards_of(self.shard_count, keys.ordered().take(i + 1).to_set()),
            ));
            i += 1;
        }
        assert(keys.ordered().take(i as int) =~= keys.ordered());
    }

    /// The shards on which `keys` live.
    pub fn shards_for_keys(&self, keys: &OrdSet<Key>) -> (r: OrdSet<ShardId>)
        requires
            self.wf(),
        ensures
            r@ == shards_of(self.shard_count, keys@),
    {
        let mut shards: OrdSet<ShardId> = OrdSet::new();
        self.add_shards(&mut shards, keys);
        assert(shards@ =~= shards_of(self.shard_count, keys@));
        shards
    }

    pub fn participants_for_sets(
        &self,
        read_set: &OrdSet<Key>,
        write_set: &OrdSet<Key>,
    ) -> (r: Participants)
        requires
            self.wf(),
        ensures
            r@ == participants_of(self.shard_count, read_set@, write_set@),
    {
        let mut all: OrdSet<ShardId> = OrdSet::new();
        self.add_shards(&mut all, read_set);
        self.add_shards(&mut all, write_set);
        proof {
            lemma_shards_union(self.shard_count, read_set@, write_set@);
        }
        assert(all@ =~= shards_of(self.shard_count, read_set@.union(write_set@)));
        let mut active: OrdSet<ShardId> = OrdSet::new();
        if write_set.is_empty() {
            if let Some(shard) = self.read_only_coordinator(read_set) {
                let _ = active.insert(shard);
            }
        } else {
            self.add_shards(&mut active, write_set);
        }
        assert(active@ =~= participants_of(self.shard_count, read_set@, write_set@).active);
        let passive = all.difference(&active);
        Participants { all, active, passive }
    }

    pub fn participants(&self, tx: &OrderedTx) -> (r: Participants)
        requires
            self.wf(),
        ensures
            r@ == participants_of(self.shard_count, tx@.read_set, tx@.write_set),
    {
        self.participants_for_sets(&tx.read_set, &tx.write_set)
    }

    /// The shard that answers to the client: the least active one.
    pub fn result_shard_for_sets(
        &self,
        read_set: &OrdSet<Key>,
        write_set: &OrdSet<Key>,
    ) -> (r: Option<ShardId>)
        requires
            self.wf(),
        ensures
            match r {
                Some(shard) => least_shard(
                    participants_of(self.shard_count, read_set@, write_set@).active,
                    shard,
                ),
                None => read_set@ == Set::<Path>::empty() && write_set@ == Set::<Path>::empty(),
            },
    {
        let participants = self.participants_for_sets(read_set, write_set);
        let active = participants.active;
        let n = active.len();
        if n == 0 {
            proof {
                assert(active@ =~= Set::<ShardId>::empty());
                if write_set@ != Set::<Path>::empty() {
                    lemma_shards_nonempty(self.shard_count, write_set@);
                } else if read_set@ != Set::<Path>::empty() {
                    assert(active@.contains(shard_of(self.shard_count, first_key(read_set@))));
                }
            }
            return None;
        }
        let shard = *active.at(0);
        assert(least_shard(active@, shard)) by {
            assert forall|other: ShardId| #[trigger] active@.contains(other) implies shard
                <= other by {
                let i = choose|i: int| 0 <= i < active.ordered().len() && active.ordered()[i]
                    == other;
                if i > 0 {
                    assert(<u64 as SortKey>::before(
                        active.ordered()[0],
                        active.ordered()[i],
                    ));
                }
            }
        }
        Some(shard)
    }

    pub fn result_shard(&self, tx: &OrderedTx) -> (r: Option<ShardId>)
        requires
            self.wf(),
        ensures
            match r {
                Some(shard) => least_shard(
                    participants_of(self.shard_count, tx@.read_set, tx@.write_set).active,
                    shard,
                ),
                None => tx@.read_set == Set::<Path>::empty() && tx@.write_set
                    == Set::<Path>::empty(),
            },
    {
        self.result_shard_for_sets(&tx.read_set, &tx.write_set)
    }

    /// The shard that runs a transaction without writes: that of its first key.
    pub fn read_only_coordinator(&self, read_set: &OrdSet<Key>) -> (r: Option<ShardId>)
        requires
            self.wf(),
        ensures
            match r {
                Some(shard) => read_set@ != Set::<Path>::empty() && shard == shard_of(
                    self.shard_count,
                    first_key(read_set@),
                ),
                None => read_set@ == Set::<Path>::empty(),
            },
    {
        let n = read_set.len();
        if n == 0 {
            assert(read_set@ =~= Set::<Path>::empty());
            return None;
        }
        proof {
            lemma_first_key(read_set.ordered());
        }
        Some(self.shard_for_key(read_set.at(0)))
    }

    /// Adds the keys of `keys` that live on `shard_id` to `found`.
    fn add_local(&self, found: &mut OrdSet<Key>, keys: &OrdSet<Key>, shard_id: ShardId)
        requires
            self.wf(),
        ensures
            final(found)@ == old(found)@.union(local_part(self.shard_count, keys@, shard_id)),
    {
        let n = keys.len();
        let mut i: usize = 0;
        assert(found@ =~= old(found)@.union(
            local_part(self.shard_count, keys.ordered().take(0).to_set(), shard_id),
        ));
        while i < n
            invariant
                self.wf(),
                i <= n,
                n == keys.ordered().len(),
                found@ == old(found)@.union(
                    local_part(self.shard_count, keys.ordered().take(i as int).to_set(), shard_id),
                ),
            decreases n - i,
        {
            let key = keys.at(i);
            proof {
                collections::lemma_take_to_set(keys.ordered(), i as int);
            }
            if self.shard_for_key(key) == shard_id {
                let _ = found.insert(key.clone());
            }
            assert(found@ =~= old(found)@.union(
                local_part(self.shard_count, keys.ordered().take(i + 1).to_set(), shard_id),
            ));
            i += 1;
        }
        assert(keys.ordered().take(i as int) =~= keys.ordered());
    }

    /// The keys of `keys` that live on `shard_id`.
    pub fn local_keys_of(&self, keys: &OrdSet<Key>, shard_id: ShardId) -> (r: OrdSet<Key>)
        requires
            self.wf(),
        ensures
            r@ == local_part(self.shard_count, keys@, shard_id),
    {
        let mut found: OrdSet<Key> = OrdSet::new();
        self.add_local(&mut found, keys, shard_id);
        assert(found@ =~= local_part(self.shard_count, keys@, shard_id));
        found
    }

    pub fn local_read_keys(&self, tx: &OrderedTx, shard_id: ShardId) -> (r: OrdSet<Key>)
        requires
            self.wf(),
        ensures
            r@ == local_part(self.shard_count, tx@.read_set, shard_id),
    {
        self.local_keys_of(&tx.read_set, shard_id)
    }

    pub fn local_write_keys(&self, tx: &OrderedTx, shard_id: ShardId) -> (r: OrdSet<Key>)
        requires
            self.wf(),
        ensures
            r@ == local_part(self.shard_count, tx@.write_set, shard_id),
    {
        self.local_keys_of(&tx.write_set, shard_id)
    }

    pub fn local_lock_keys(&self, tx: &OrderedTx, shard_id: ShardId) -> (r: OrdSet<Key>)
        requires
            self.wf(),
        ensures
            r@ == local_part(self.shard_count, tx@.read_set.union(tx@.write_set), shard_id),
    {
        let mut found: OrdSet<Key> = OrdSet::new();
        self.add_local(&mut found, &tx.read_set, shard_id);
        self.add_local(&mut found, &tx.write_set, shard_id);
        assert(found@ =~= local_part(
            self.shard_count,
            tx@.read_set.union(tx@.write_set),
            shard_id,
        ));
        found
    }
}

pub proof fn lemma_shards_insert(shard_count: u64, keys: Set<Path>, key: Path)
    ensures
        shards_of(shard_count, keys.insert(key)) == shards_of(shard_count, keys).insert(
            shard_of(shard_count, key),
        ),
{
    let f = |k: Path| shard_of(shard_count, k);
    let a = shards_of(shard_count, keys.insert(key));
    let b = shards_of(shard_count, keys).insert(shard_of(shard_count, key));
    assert forall|s: ShardId| #[trigger] b.contains(s) implies a.contains(s) by {
        if s == f(key) {
            assert(keys.insert(key).contains(key));
        } else {
            let k = choose|k: Path| keys.contains(k) && f(k) == s;
            assert(keys.insert(key).contains(k));
        }
    }
    assert(a =~= b);
}

proof fn lemma_shards_union(shard_count: u64, s: Set<Path>, t: Set<Path>)
    ensures
        shards_of(shard_count, s.union(t)) == shards_of(shard_count, s).union(
            shards_of(shard_count, t),
        ),
{
    let f = |k: Path| shard_of(shard_count, k);
    let a = shards_of(shard_count, s.union(t));
    let b = shards_of(shard_count, s).union(shards_of(shard_count, t));
    assert forall|x: ShardId| #[trigger] b.contains(x) implies a.contains(x) by {
        if shards_of(shard_count, s).contains(x) {
            let k = choose|k: Path| s.contains(k) && f(k) == x;
            assert(s.union(t).contains(k));
        } else {
            let k = choose|k: Path| t.contains(k) && f(k) == x;
            assert(s.union(t).contains(k));
        }
    }
    assert(a =~= b);
}

proof fn lemma_shards_nonempty(shard_count: u64, keys: Set<Path>)
    requires
        keys != Set::<Path>::empty(),
    ensures
        shards_of(shard_count, keys) != Set::<ShardId>::empty(),
{
    if forall|k: Path| !keys.contains(k) {
        assert(keys =~= Set::<Path>::empty());
    }
    let k = choose|k: Path| keys.contains(k);
    assert(shards_of(shard_count, keys).contains(shard_of(shard_count, k)));
}

} // verus!
