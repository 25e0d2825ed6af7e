//! First-come-first-served locks: one queue per key, in batch order.

use crate::collections;
use crate::collections::{OrdMap, OrdSet, SortKey};
use crate::error::{Error, LockFault, Result};
use crate::model::{Key, TxId};
use crate::path::Path;
use vstd::prelude::*;

verus! {

/// Tells a transaction that it holds the lock of a key.
#[derive(Debug, PartialEq, Eq)]
pub struct LockGrant {
    pub key: Key,
}

impl View for LockGrant {
    type V = Path;

    open spec fn view(&self) -> Path {
        self.key@
    }
}

impl Clone for LockGrant {
    fn clone(&self) -> (r: Self)
        ensures
            r@ == self@,
    {
        LockGrant { key: self.key.clone() }
    }
}

/// Who waits for each key; the first of a queue holds the lock.
pub type Queues = Map<Path, Seq<TxId>>;

/// The queue of a key, empty where there is none.
pub open spec fn queue_of(queues: Queues, key: Path) -> Seq<TxId> {
    if queues.contains_key(key) {
        queues[key]
    } else {
        Seq::empty()
    }
}

/// The queues after `tx_id` lined up for `keys`.
pub open spec fn lined_up(queues: Queues, tx_id: TxId, keys: Set<Path>) -> Queues {
    Map::new(
        |k: Path| queues.contains_key(k) || keys.contains(k),
        |k: Path|
            if keys.contains(k) {
                queue_of(queues, k).push(tx_id)
            } else {
                queues[k]
            },
    )
}

/// The queues after the first of each of `keys` left. A queue that is empty then
/// is gone.
pub open spec fn moved_up(queues: Queues, keys: Set<Path>) -> Queues {
    Map::new(
        |k: Path| queues.contains_key(k) && (keys.contains(k) ==> queues[k].len() > 1),
        |k: Path|
            if keys.contains(k) {
                queues[k].drop_first()
            } else {
                queues[k]
            },
    )
}

/// The grants to whoever is second in line for `keys`, in their order.
pub open spec fn next_grants(queues: Queues, keys: Seq<Path>) -> Seq<(TxId, Path)>
    decreases keys.len(),
{
    if keys.len() == 0 {
        Seq::empty()
    } else {
        let earlier = next_grants(queues, keys.drop_last());
        let key = keys.last();
        if queue_of(queues, key).len() > 1 {
            earlier.push((queues[key][1], key))
        } else {
            earlier
        }
    }
}

/// `tx_id` is first in line for `key`.
pub open spec fn holds(queues: Queues, tx_id: TxId, key: Path) -> bool {
    queues.contains_key(key) && queues[key].len() > 0 && queues[key][0] == tx_id
}

pub open spec fn grant_views(grants: Seq<(TxId, LockGrant)>) -> Seq<(TxId, Path)> {
    grants.map_values(|g: (TxId, LockGrant)| (g.0, g.1@))
}

/// The locks of a batch.
pub struct LockTable {
    queues: OrdMap<Key, Vec<TxId>>,
}

impl View for LockTable {
    type V = Queues;

    closed spec fn view(&self) -> Queues {
        self.queues@.map_values(|q: Vec<TxId>| q@)
    }
}

/// Why a release is refused at `key`.
pub open spec fn release_fault(queues: Queues, tx_id: TxId, key: Path, fault: LockFault) -> bool {
    match fault {
        LockFault::MissingQueue { key: k } => !queues.contains_key(key) && k@ == key,
        LockFault::NotHead { tx_id: t, key: k, head } => {
            queues.contains_key(key) && queues[key].len() > 0 && head == queues[key][0] && head
                != tx_id && t == tx_id && k@ == key
        },
        _ => false,
    }
}

impl LockTable {
    /// No queue is empty.
    #[verifier::type_invariant]
    pub closed spec fn inv(self) -> bool {
        forall|k: Path| #[trigger] self.queues@.contains_key(k) ==> self.queues@[k]@.len() > 0
    }

    pub fn new() -> (r: Self)
        ensures
            r@ == Map::<Path, Seq<TxId>>::empty(),
    {
        let r = LockTable { queues: OrdMap::new() };
        assert(r@ =~= Map::<Path, Seq<TxId>>::empty());
        r
    }

    /// Lines `tx_id` up for each of `local_keys`.
    pub fn enqueue(&mut self, tx_id: TxId, local_keys: &OrdSet<Key>)
        ensures
            final(self)@ == lined_up(old(self)@, tx_id, local_keys@),
    {
        proof {
            use_type_invariant(&*self);
        }
        let n = local_keys.len();
        let ghost keys = local_keys.ordered();
        let ghost start = self@;
        let mut queues: OrdMap<Key, Vec<TxId>> = OrdMap::new();
        std::mem::swap(&mut queues, &mut self.queues);
        let mut i: usize = 0;
        proof {
            assert(queues@.map_values(|q: Vec<TxId>| q@) =~= lined_up(
                start,
                tx_id,
                keys.take(0).to_set(),
            ));
        }
        while i < n
            invariant
                i <= n,
                n == keys.len(),
                keys == local_keys.ordered(),
                collections::ascending::<Key>(keys),
                queues@.map_values(|q: Vec<TxId>| q@) == lined_up(
                    start,
                    tx_id,
                    keys.take(i as int).to_set(),
                ),
                forall|k: Path| #[trigger] queues@.contains_key(k) ==> queues@[k]@.len() > 0,
            decreases n - i,
        {
            let key = local_keys.at(i);
            let ghost so_far = queues@;
            let ghost taken = keys.take(i as int).to_set();
            proof {
                collections::lemma_take_to_set(keys, i as int);
                assert(!taken.contains(key@)) by {
                    if taken.contains(key@) {
                        let early = keys.take(i as int);
                        let j = choose|j: int| 0 <= j < early.len() && early[j] == key@;
                        assert(Key::before(keys[j], keys[i as int]));
                        <Key as SortKey>::before_irreflexive(key@);
                    }
                }
                let prior = so_far.map_values(|q: Vec<TxId>| q@);
                assert(so_far.contains_key(key@) <==> prior.contains_key(key@));
                assert(prior.contains_key(key@) <==> start.contains_key(key@));
                assert(prior.contains_key(key@) ==> prior[key@] == start[key@]);
            }
            let mut queue = match queues.remove(key) {
                Some(queue) => queue,
                None => Vec::new(),
            };
            assert(queue@ == queue_of(start, key@));
            queue.push(tx_id);
            let _ = queues.insert(key.clone(), queue);
            proof {
                let now = queues@.map_values(|q: Vec<TxId>| q@);
                let next = lined_up(start, tx_id, keys.take(i + 1).to_set());
                let prior = so_far.map_values(|q: Vec<TxId>| q@);
                assert forall|k: Path| #[trigger] now.contains_key(k) <==> next.contains_key(k) by {
                    assert(now.contains_key(k) <==> queues@.contains_key(k));
                    assert(prior.contains_key(k) <==> so_far.contains_key(k));
                    assert(prior.contains_key(k) <==> lined_up(start, tx_id, taken).contains_key(
                        k,
                    ));
                }
                assert(now.dom() =~= next.dom());
                assert forall|k: Path| now.contains_key(k) implies now[k] == next[k] by {
                    if k != key@ {
                        assert(prior.contains_key(k));
                        assert(prior[k] == lined_up(start, tx_id, taken)[k]);
                    }
                }
                assert(now =~= next);
            }
            i += 1;
        }
        proof {
            assert(keys.take(i as int) =~= keys);
        }
        self.queues = queues;
    }

    /// The grants to whoever is first in line, by key.
    pub fn grant_initial_heads(&self) -> (r: Vec<(TxId, LockGrant)>)
        ensures
            ({
                let keys = collections::sorted::<Key>(self@.dom());
                &&& r@.len() == keys.len()
                &&& forall|i: int|
                    0 <= i < keys.len() ==> (#[trigger] grant_views(r@)[i]) == (
                        self@[keys[i]][0],
                        keys[i],
                    )
            }),
    {
        proof {
            use_type_invariant(&*self);
        }
        let n = self.queues.len();
        let ghost keys = self.queues.ordered();
        assert(self@.dom() =~= self.queues@.dom());
        let mut grants: Vec<(TxId, LockGrant)> = Vec::new();
        let mut i: usize = 0;
        while i < n
            invariant
                i <= n,
                n == keys.len(),
                keys == self.queues.ordered(),
                forall|k: Path| #[trigger]
                    self.queues@.contains_key(k) ==> self.queues@[k]@.len() > 0,
                grants.len() == i,
                forall|j: int|
                    0 <= j < i ==> (#[trigger] grant_views(grants@)[j]) == (self@[keys[j]][0], keys[j]),
            decreases n - i,
        {
            let key = self.queues.key_at(i);
            let queue = self.queues.value_at(i);
            let ghost before_grants = grants@;
            grants.push((queue[0], LockGrant { key: key.clone() }));
            proof {
                assert forall|j: int| 0 <= j < i + 1 implies (#[trigger] grant_views(grants@)[j])
                    == (self@[keys[j]][0], keys[j]) by {
                    if j < i {
                        assert(grant_views(before_grants)[j] == (self@[keys[j]][0], keys[j]));
                    }
                }
            }
            i += 1;
        }
        grants
    }

    /// Takes `tx_id` off the head of the queues of `local_keys`, in their order, and
    /// adds the grants to whoever is first in line then.
    pub fn release_and_grant_next(
        &mut self,
        tx_id: TxId,
        local_keys: &OrdSet<Key>,
        grants: &mut Vec<(TxId, LockGrant)>,
    ) -> (r: Result<()>)
        ensures
            ({
                let keys = collections::sorted::<Key>(local_keys@);
                match r {
                    Ok(_) => {
                        &&& forall|k: Path| #[trigger]
                            local_keys@.contains(k) ==> holds(old(self)@, tx_id, k)
                        &&& final(self)@ == moved_up(old(self)@, local_keys@)
                        &&& grant_views(final(grants)@) == grant_views(old(grants)@) + next_grants(
                            old(self)@,
                            keys,
                        )
                    },
                    Err(error) => {
                        &&& !(forall|k: Path| #[trigger]
                            local_keys@.contains(k) ==> holds(old(self)@, tx_id, k))
                        &&& release_error(
                            old(self)@,
                            tx_id,
                            keys,
                            final(self)@,
                            grant_views(old(grants)@),
                            grant_views(final(grants)@),
                            error,
                        )
                    },
                }
            }),
    {
        proof {
            use_type_invariant(&*self);
        }
        let n = local_keys.len();
        let ghost keys = local_keys.ordered();
        let ghost start = self@;
        let ghost start_grants = grant_views(grants@);
        let mut queues: OrdMap<Key, Vec<TxId>> = OrdMap::new();
        std::mem::swap(&mut queues, &mut self.queues);
        proof {
            let now = queues@.map_values(|q: Vec<TxId>| q@);
            assert(now =~= moved_up(start, keys.take(0).to_set()));
            assert(start_grants =~= start_grants + next_grants(start, keys.take(0)));
        }
        let mut i: usize = 0;
        while i < n
            invariant
                i <= n,
                n == keys.len(),
                keys == local_keys.ordered(),
                keys == collections::sorted::<Key>(local_keys@),
                collections::ascending::<Key>(keys),
                start == old(self)@,
                start_grants == grant_views(old(grants)@),
                forall|k: Path| #[trigger] start.contains_key(k) ==> start[k].len() > 0,
                self.inv(),
                released_until(
                    start,
                    tx_id,
                    keys,
                    i as int,
                    queues@.map_values(|q: Vec<TxId>| q@),
                    start_grants,
                    grant_views(grants@),
                ),
                forall|k: Path| #[trigger] queues@.contains_key(k) ==> queues@[k]@.len() > 0,
            decreases n - i,
        {
            let key = local_keys.at(i);
            let ghost so_far = queues@;
            let ghost prior = so_far.map_values(|q: Vec<TxId>| q@);
            let ghost taken = keys.take(i as int).to_set();
            let ghost before_grants = grant_views(grants@);
            proof {
                collections::lemma_take_to_set(keys, i as int);
                assert(!taken.contains(key@)) by {
                    if taken.contains(key@) {
                        let early = keys.take(i as int);
                        let j = choose|j: int| 0 <= j < early.len() && early[j] == key@;
                        assert(Key::before(keys[j], keys[i as int]));
                        <Key as SortKey>::before_irreflexive(key@);
                    }
                }
                assert(so_far.contains_key(key@) <==> prior.contains_key(key@));
                assert(prior.contains_key(key@) <==> start.contains_key(key@));
            }
            let head = match queues.get(key) {
                Some(queue) => queue[0],
                None => {
                    self.queues = queues;
                    let error = Error::LockInvariant(LockFault::MissingQueue { key: key.clone() });
                    assert(release_fault(start, tx_id, keys[i as int], error->LockInvariant_0));
                    assert(local_keys@.contains(key@) && !holds(start, tx_id, key@));
                    assert(released_until(
                        start,
                        tx_id,
                        keys,
                        i as int,
                        self@,
                        start_grants,
                        grant_views(grants@),
                    ));
                    return Err(error);
                },
            };
            assert(prior[key@] == start[key@]);
            if head != tx_id {
                self.queues = queues;
                let error = Error::LockInvariant(
                    LockFault::NotHead { tx_id, key: key.clone(), head },
                );
                assert(release_fault(start, tx_id, keys[i as int], error->LockInvariant_0));
                assert(local_keys@.contains(key@) && !holds(start, tx_id, key@));
                assert(released_until(
                    start,
                    tx_id,
                    keys,
                    i as int,
                    self@,
                    start_grants,
                    grant_views(grants@),
                ));
                return Err(error);
            }
            match queues.remove(key) {
                Some(mut queue) => {
                    let _ = queue.remove(0);
                    assert(queue@ =~= start[key@].drop_first());
                    if queue.len() > 0 {
                        grants.push((queue[0], LockGrant { key: key.clone() }));
                        assert(grant_views(grants@) =~= before_grants.push(
                            (start[key@][1], key@),
                        ));
                        let _ = queues.insert(key.clone(), queue);
                    }
                },
                None => {},
            }
            proof {
                let now = queues@.map_values(|q: Vec<TxId>| q@);
                let next = moved_up(start, keys.take(i + 1).to_set());
                assert forall|k: Path| #[trigger] now.contains_key(k) <==> next.contains_key(k) by {
                    assert(now.contains_key(k) <==> queues@.contains_key(k));
                    assert(prior.contains_key(k) <==> so_far.contains_key(k));
                    assert(prior.contains_key(k) <==> moved_up(start, taken).contains_key(k));
                }
                assert(now.dom() =~= next.dom());
                assert forall|k: Path| now.contains_key(k) implies now[k] == next[k] by {
                    if k != key@ {
                        assert(prior.contains_key(k));
                        assert(prior[k] == moved_up(start, taken)[k]);
                    }
                }
                assert(now =~= next);
                assert(keys.take(i + 1).drop_last() =~= keys.take(i as int));
                assert(keys.take(i + 1).last() == key@);
                assert(grant_views(grants@) =~= start_grants + next_grants(
                    start,
                    keys.take(i + 1),
                ));
                assert forall|j: int| 0 <= j < i + 1 implies holds(
                    start,
                    tx_id,
                    #[trigger] keys[j],
                ) by {}
            }
            i += 1;
        }
        proof {
            assert(keys.take(i as int) =~= keys);
            assert forall|k: Path| #[trigger] local_keys@.contains(k) implies holds(
                start,
                tx_id,
                k,
            ) by {
                let j = choose|j: int| 0 <= j < keys.len() && keys[j] == k;
                assert(holds(start, tx_id, keys[j]));
            }
        }
        self.queues = queues;
        Ok(())
    }
}

/// The first `i` of `keys` were released, and nothing else was done.
pub open spec fn released_until(
    start: Queues,
    tx_id: TxId,
    keys: Seq<Path>,
    i: int,
    now: Queues,
    grants_before: Seq<(TxId, Path)>,
    grants_now: Seq<(TxId, Path)>,
) -> bool {
    &&& 0 <= i <= keys.len()
    &&& forall|j: int| 0 <= j < i ==> holds(start, tx_id, #[trigger] keys[j])
    &&& now == moved_up(start, keys.take(i).to_set())
    &&& grants_now == grants_before + next_grants(start, keys.take(i))
}

/// Why a release stopped, and how far it came.
pub open spec fn release_error(
    start: Queues,
    tx_id: TxId,
    keys: Seq<Path>,
    now: Queues,
    grants_before: Seq<(TxId, Path)>,
    grants_now: Seq<(TxId, Path)>,
    error: Error,
) -> bool {
    match error {
        Error::LockInvariant(fault) => {
            exists|i: int| #[trigger]
                released_until(start, tx_id, keys, i, now, grants_before, grants_now) && i
                    < keys.len() && release_fault(start, tx_id, keys[i], fault)
        },
        _ => false,
    }
}

} // verus!
