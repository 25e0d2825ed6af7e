//! What lining up for keys and letting go of them does to the queues.

use crate::error::{Error, LockFault};
use crate::lock;
use crate::lock::Queues;
use crate::model::TxId;
use crate::path::Path;
use vstd::prelude::*;

verus! {

/// Lining up puts a transaction at the end of the queue of each of its keys, and leaves
/// all others as they are.
pub proof fn lemma_enqueue(queues: Queues, tx_id: TxId, keys: Set<Path>, key: Path)
    ensures
        ({
            let after = lock::lined_up(queues, tx_id, keys);
            if keys.contains(key) {
                &&& after.contains_key(key)
                &&& after[key].last() == tx_id
                &&& after[key].drop_last() == if queues.contains_key(key) {
                    queues[key]
                } else {
                    Seq::empty()
                }
            } else {
                &&& after.contains_key(key) <==> queues.contains_key(key)
                &&& after.contains_key(key) ==> after[key] == queues[key]
            }
        }),
{
    let after = lock::lined_up(queues, tx_id, keys);
    if keys.contains(key) {
        assert(after[key].drop_last() =~= lock::queue_of(queues, key));
    }
}

/// Letting go takes the first off the queue of each of the keys. A queue that it alone
/// stood in is gone; all others are as they were.
pub proof fn lemma_let_go(queues: Queues, tx_id: TxId, keys: Set<Path>, key: Path)
    requires
        forall|k: Path| #[trigger] keys.contains(k) ==> lock::holds(queues, tx_id, k),
    ensures
        ({
            let after = lock::moved_up(queues, keys);
            if keys.contains(key) {
                &&& queues.contains_key(key) && queues[key].first() == tx_id
                &&& after.contains_key(key) <==> queues[key].len() > 1
                &&& after.contains_key(key) ==> seq![tx_id] + after[key] == queues[key]
            } else {
                &&& after.contains_key(key) <==> queues.contains_key(key)
                &&& after.contains_key(key) ==> after[key] == queues[key]
            }
        }),
{
    let after = lock::moved_up(queues, keys);
    if keys.contains(key) {
        assert(lock::holds(queues, tx_id, key));
        if after.contains_key(key) {
            assert(seq![tx_id] + after[key] =~= queues[key]);
        }
    }
}

/// Who lets go of keys and lines up for them again stands last, behind all who waited.
pub proof fn lemma_round(queues: Queues, tx_id: TxId, keys: Set<Path>, key: Path)
    requires
        forall|k: Path| #[trigger] keys.contains(k) ==> lock::holds(queues, tx_id, k),
        keys.contains(key),
    ensures
        lock::lined_up(lock::moved_up(queues, keys), tx_id, keys)[key]
            == queues[key].drop_first().push(tx_id),
{
    assert(lock::holds(queues, tx_id, key));
    let after = lock::moved_up(queues, keys);
    if !after.contains_key(key) {
        assert(queues[key].drop_first() =~= Seq::<TxId>::empty());
    }
}

/// When keys are let go, each of them at which someone waits is granted to who is first
/// now, and to nobody else; the grants come in the order of the keys.
pub proof fn lemma_grants(queues: Queues, keys: Seq<Path>, g: (TxId, Path))
    requires
        forall|k: int| 0 <= k < keys.len() ==> queues.contains_key(#[trigger] keys[k]),
    ensures
        lock::next_grants(queues, keys).contains(g) <==> keys.contains(g.1) && lock::moved_up(
            queues,
            keys.to_set(),
        ).contains_key(g.1) && g.0 == lock::moved_up(queues, keys.to_set())[g.1].first(),
        forall|i: int, j: int|
            0 <= i < j < lock::next_grants(queues, keys).len() ==> exists|m: int, n: int|
                0 <= m < n < keys.len() && #[trigger] keys[m] == (#[trigger] lock::next_grants(
                    queues,
                    keys,
                )[i]).1 && #[trigger] keys[n] == (#[trigger] lock::next_grants(queues, keys)[j]).1,
    decreases keys.len(),
{
    let grants = lock::next_grants(queues, keys);
    if keys.len() > 0 {
        let front = keys.drop_last();
        let last = keys.last();
        let earlier = lock::next_grants(queues, front);
        assert forall|k: int| 0 <= k < front.len() implies queues.contains_key(
            #[trigger] front[k],
        ) by {
            assert(front[k] == keys[k]);
        }
        lemma_grants(queues, front, g);
        assert(queues.contains_key(keys[keys.len() - 1]));
        let now = lock::moved_up(queues, keys.to_set());
        let then = lock::moved_up(queues, front.to_set());
        if keys.contains(g.1) {
            let k = choose|k: int| 0 <= k < keys.len() && keys[k] == g.1;
            if k < front.len() {
                assert(front[k] == g.1);
            }
            assert(now.contains_key(g.1) <==> queues[g.1].len() > 1);
            if queues[g.1].len() > 1 {
                assert(now[g.1].first() == queues[g.1][1]);
            }
        }
        if front.contains(g.1) {
            let k = choose|k: int| 0 <= k < front.len() && front[k] == g.1;
            assert(keys[k] == g.1);
            assert(then.contains_key(g.1) <==> queues[g.1].len() > 1);
            if queues[g.1].len() > 1 {
                assert(then[g.1].first() == queues[g.1][1]);
            }
        }
        if earlier.contains(g) {
            let i = choose|i: int| 0 <= i < earlier.len() && earlier[i] == g;
            assert(grants[i] == g);
        }
        if grants.contains(g) {
            let i = choose|i: int| 0 <= i < grants.len() && grants[i] == g;
            if i < earlier.len() {
                assert(earlier[i] == g);
            } else {
                assert(g == (queues[last][1], last));
                assert(keys[keys.len() - 1] == g.1);
            }
        }
        if queues[last].len() > 1 {
            assert(grants[grants.len() - 1] == (queues[last][1], last));
        }
        assert forall|i: int, j: int| 0 <= i < j < grants.len() implies exists|m: int, n: int|
            0 <= m < n < keys.len() && #[trigger] keys[m] == (#[trigger] grants[i]).1
                && #[trigger] keys[n] == (#[trigger] grants[j]).1 by {
            lemma_grant_place(queues, front, i);
            let m = choose|m: int| 0 <= m < front.len() && #[trigger] front[m] == earlier[i].1;
            assert(grants[i] == earlier[i]);
            if j < earlier.len() {
                assert(grants[j] == earlier[j]);
                let (a, b) = choose|a: int, b: int|
                    0 <= a < b < front.len() && #[trigger] front[a] == earlier[i].1
                        && #[trigger] front[b] == earlier[j].1;
                assert(keys[a] == grants[i].1 && keys[b] == grants[j].1);
            } else {
                assert(keys[m] == grants[i].1 && keys[keys.len() - 1] == grants[j].1);
            }
        }
    }
}

proof fn lemma_grant_place(queues: Queues, keys: Seq<Path>, i: int)
    requires
        0 <= i < lock::next_grants(queues, keys).len(),
    ensures
        exists|m: int|
            0 <= m < keys.len() && #[trigger] keys[m] == lock::next_grants(queues, keys)[i].1,
    decreases keys.len(),
{
    if keys.len() > 0 {
        let front = keys.drop_last();
        let earlier = lock::next_grants(queues, front);
        if i < earlier.len() {
            lemma_grant_place(queues, front, i);
            let m = choose|m: int| 0 <= m < front.len() && #[trigger] front[m] == earlier[i].1;
            assert(keys[m] == lock::next_grants(queues, keys)[i].1);
        } else {
            assert(keys[keys.len() - 1] == lock::next_grants(queues, keys)[i].1);
        }
    }
}

/// Keys are let go only by who stands first at all of them: a refusal names one at which
/// it does not, and who does where someone does.
pub proof fn lemma_refused_release(
    queues: Queues,
    tx_id: TxId,
    keys: Seq<Path>,
    now: Queues,
    before: Seq<(TxId, Path)>,
    after: Seq<(TxId, Path)>,
    error: Error,
)
    requires
        lock::release_error(queues, tx_id, keys, now, before, after, error),
    ensures
        match error {
            Error::LockInvariant(LockFault::MissingQueue { key }) => keys.contains(key@)
                && !queues.contains_key(key@),
            Error::LockInvariant(LockFault::NotHead { tx_id: t, key, head }) => {
                &&& t == tx_id
                &&& keys.contains(key@) && queues.contains_key(key@)
                &&& queues[key@].first() == head && head != tx_id
            },
            _ => false,
        },
{
    let i = choose|i: int| #[trigger]
        lock::released_until(queues, tx_id, keys, i, now, before, after) && i < keys.len()
            && lock::release_fault(queues, tx_id, keys[i], error->LockInvariant_0);
    assert(keys.contains(keys[i]));
}

} // verus!
