//! Putting the states of the shards together.

use crate::collections;
use crate::collections::{OrdMap, SortKey};
use crate::error::{CheckerFault, Error, Result};
use crate::model::{Inode, Key, ShardId};
use crate::path::Path;
use crate::router;
use crate::router::ShardLayout;
use crate::state::State;
use vstd::prelude::*;

verus! {

/// The states that the shards dumped.
pub open spec fn dump_views(dumps: Seq<(ShardId, OrdMap<Key, Inode>)>) -> Seq<(ShardId, State)> {
    dumps.map_values(|d: (ShardId, OrdMap<Key, Inode>)| (d.0, d.1@))
}

/// One of the first `n` dumps holds `key`.
pub open spec fn dumped(dumps: Seq<(ShardId, State)>, key: Path, n: int) -> bool {
    exists|s: int| 0 <= s < n && (#[trigger] dumps[s]).1.contains_key(key)
}

/// `key` may stand in dump `s`: it lives on that shard, and no dump before holds
/// it.
pub open spec fn well_placed(
    shard_count: u64,
    dumps: Seq<(ShardId, State)>,
    s: int,
    key: Path,
) -> bool {
    router::shard_of(shard_count, key) == dumps[s].0 && !dumped(dumps, key, s)
}

/// Every key of the first `n` dumps is well placed.
pub open spec fn all_placed(shard_count: u64, dumps: Seq<(ShardId, State)>, n: int) -> bool {
    forall|s: int, key: Path|
        0 <= s < n && #[trigger] dumps[s].1.contains_key(key) ==> well_placed(
            shard_count,
            dumps,
            s,
            key,
        )
}

/// The first `n` dumps put together.
pub open spec fn merged(dumps: Seq<(ShardId, State)>, n: int) -> State
    decreases n,
{
    if n <= 0 {
        Map::empty()
    } else {
        merged(dumps, n - 1).union_prefer_right(dumps[n - 1].1)
    }
}

/// `key` is the first key of dump `s`, all dumps before being in order, that is
/// not well placed.
pub open spec fn first_misplaced(
    shard_count: u64,
    dumps: Seq<(ShardId, State)>,
    s: int,
    key: Path,
) -> bool {
    &&& 0 <= s < dumps.len()
    &&& all_placed(shard_count, dumps, s)
    &&& dumps[s].1.contains_key(key)
    &&& !well_placed(shard_count, dumps, s, key)
    &&& forall|other: Path| #[trigger]
        dumps[s].1.contains_key(other) && Key::before(other, key) ==> well_placed(
            shard_count,
            dumps,
            s,
            other,
        )
}

/// `key` is the first misplaced key, in dump `s` of a shard that is not its own.
pub open spec fn wrong_shard_at(
    shard_count: u64,
    dumps: Seq<(ShardId, State)>,
    s: int,
    key: Path,
    shard_id: ShardId,
    owner: ShardId,
) -> bool {
    &&& first_misplaced(shard_count, dumps, s, key)
    &&& shard_id == dumps[s].0
    &&& owner == router::shard_of(shard_count, key)
    &&& owner != shard_id
}

/// `key` is the first misplaced key, in a dump of its own shard.
pub open spec fn two_shards_at(
    shard_count: u64,
    dumps: Seq<(ShardId, State)>,
    s: int,
    key: Path,
) -> bool {
    &&& first_misplaced(shard_count, dumps, s, key)
    &&& router::shard_of(shard_count, key) == dumps[s].0
}

/// Why the dumps cannot be put together: the first misplaced key.
pub open spec fn merge_error(
    shard_count: u64,
    dumps: Seq<(ShardId, State)>,
    error: Error,
) -> bool {
    match error {
        Error::Checker(CheckerFault::KeyOnWrongShard { key, shard_id, owner }) => {
            exists|s: int| #[trigger]
                wrong_shard_at(shard_count, dumps, s, key@, shard_id, owner)
        },
        Error::Checker(CheckerFault::KeyOnTwoShards { key }) => {
            exists|s: int| #[trigger] two_shards_at(shard_count, dumps, s, key@)
        },
        _ => false,
    }
}

proof fn lemma_merged_dom(dumps: Seq<(ShardId, State)>, n: int, key: Path)
    requires
        0 <= n <= dumps.len(),
    ensures
        merged(dumps, n).contains_key(key) <==> dumped(dumps, key, n),
    decreases n,
{
    if n > 0 {
        lemma_merged_dom(dumps, n - 1, key);
        if dumped(dumps, key, n - 1) {
            let s = choose|s: int| 0 <= s < n - 1 && (#[trigger] dumps[s]).1.contains_key(key);
            assert(dumps[s].1.contains_key(key));
        }
        if dumped(dumps, key, n) {
            let s = choose|s: int| 0 <= s < n && (#[trigger] dumps[s]).1.contains_key(key);
            if s < n - 1 {
                assert(dumped(dumps, key, n - 1));
            }
        }
        if dumps[n - 1].1.contains_key(key) {
            assert(dumped(dumps, key, n));
        }
    }
}

/// Puts the states of the shards together, checking that each key stands where it
/// belongs and nowhere else.
pub fn merge_shard_states(
    layout: &ShardLayout,
    shard_states: Vec<(ShardId, OrdMap<Key, Inode>)>,
) -> (r: Result<OrdMap<Key, Inode>>)
    requires
        layout.wf(),
    ensures
        ({
            let dumps = dump_views(shard_states@);
            let count = layout.shard_count;
            match r {
                Ok(state) => {
                    &&& all_placed(count, dumps, dumps.len() as int)
                    &&& state@ == merged(dumps, dumps.len() as int)
                },
                Err(error) => merge_error(count, dumps, error),
            }
        }),
{
    let ghost dumps = dump_views(shard_states@);
    let ghost count = layout.shard_count;
    let mut state: OrdMap<Key, Inode> = OrdMap::new();
    let mut s: usize = 0;
    while s < shard_states.len()
        invariant
            s <= shard_states.len(),
            layout.wf(),
            count == layout.shard_count,
            dumps == dump_views(shard_states@),
            all_placed(count, dumps, s as int),
            state@ == merged(dumps, s as int),
        decreases shard_states.len() - s,
    {
        let shard_id = shard_states[s].0;
        let dump = &shard_states[s].1;
        let n = dump.len();
        let ghost keys = dump.ordered();
        let ghost so_far = state@;
        assert(dumps[s as int] == (shard_id, dump@));
        let mut i: usize = 0;
        assert(state@ =~= so_far.union_prefer_right(dump@.restrict(keys.take(0).to_set())));
        while i < n
            invariant
                i <= n,
                n == dump.ordered().len(),
                keys == dump.ordered(),
                collections::ascending::<Key>(keys),
                dump@.dom() == keys.to_set(),
                s < shard_states.len(),
                layout.wf(),
                count == layout.shard_count,
                dumps == dump_views(shard_states@),
                dumps[s as int] == (shard_id, dump@),
                all_placed(count, dumps, s as int),
                so_far == merged(dumps, s as int),
                state@ == so_far.union_prefer_right(
                    dump@.restrict(keys.take(i as int).to_set()),
                ),
                forall|j: int|
                    0 <= j < i ==> well_placed(count, dumps, s as int, #[trigger] keys[j]),
            decreases n - i,
        {
            let key = dump.key_at(i);
            let inode = *dump.value_at(i);
            let owner = layout.shard_for_key(key);
            proof {
                lemma_merged_dom(dumps, s as int, key@);
                collections::lemma_take_to_set(keys, i as int);
                assert forall|other: Path| #[trigger] dump@.contains_key(other) && Key::before(
                    other,
                    key@,
                ) implies well_placed(count, dumps, s as int, other) by {
                    assert(keys.to_set().contains(other));
                    let j = choose|j: int| 0 <= j < keys.len() && keys[j] == other;
                    if j >= i {
                        if j > i {
                            assert(Key::before(keys[i as int], keys[j]));
                            <Key as SortKey>::before_transitive(key@, other, key@);
                        }
                        <Key as SortKey>::before_irreflexive(key@);
                    }
                }
                assert(!keys.take(i as int).to_set().contains(key@)) by {
                    if keys.take(i as int).to_set().contains(key@) {
                        let early = keys.take(i as int);
                        let j = choose|j: int| 0 <= j < early.len() && early[j] == key@;
                        assert(Key::before(keys[j], keys[i as int]));
                        <Key as SortKey>::before_irreflexive(key@);
                    }
                }
            }
            if owner != shard_id {
                let misplaced = key.clone();
                let error = Error::Checker(
                    CheckerFault::KeyOnWrongShard { key: misplaced, shard_id, owner },
                );
                assert(wrong_shard_at(
                    count,
                    dumps,
                    s as int,
                    error->Checker_0->KeyOnWrongShard_key@,
                    error->Checker_0->KeyOnWrongShard_shard_id,
                    error->Checker_0->KeyOnWrongShard_owner,
                ));
                return Err(error);
            }
            match state.insert(key.clone(), inode) {
                Some(_) => {
                    assert(so_far.contains_key(key@));
                    let misplaced = key.clone();
                    let error = Error::Checker(CheckerFault::KeyOnTwoShards { key: misplaced });
                    assert(two_shards_at(
                        count,
                        dumps,
                        s as int,
                        error->Checker_0->KeyOnTwoShards_key@,
                    ));
                    return Err(error);
                },
                None => {},
            }
            assert(state@ =~= so_far.union_prefer_right(
                dump@.restrict(keys.take(i + 1).to_set()),
            ));
            i += 1;
        }
        proof {
            assert(keys.take(n as int) =~= keys);
            assert(dump@.restrict(keys.to_set()) =~= dump@);
            assert forall|t: int, key: Path|
                0 <= t < s + 1 && #[trigger] dumps[t].1.contains_key(key) implies well_placed(
                count,
                dumps,
                t,
                key,
            ) by {
                if t == s {
                    assert(keys.to_set().contains(key));
                    let j = choose|j: int| 0 <= j < keys.len() && keys[j] == key;
                    assert(well_placed(count, dumps, s as int, keys[j]));
                }
            }
        }
        s += 1;
    }
    Ok(state)
}

/// Whether both states are the same.
fn same_state(expected: &OrdMap<Key, Inode>, actual: &OrdMap<Key, Inode>) -> (r: bool)
    ensures
        r == (expected@ == actual@),
{
    let n = expected.len();
    let m = actual.len();
    if n != m {
        return false;
    }
    let mut i: usize = 0;
    while i < n
        invariant
            i <= n,
            n == m,
            n == expected.ordered().len(),
            m == actual.ordered().len(),
            expected.ordered() == collections::sorted::<Key>(expected@.dom()),
            actual.ordered() == collections::sorted::<Key>(actual@.dom()),
            expected@.dom() == expected.ordered().to_set(),
            actual@.dom() == actual.ordered().to_set(),
            forall|j: int|
                0 <= j < i ==> expected.ordered()[j] == actual.ordered()[j]
                    && expected@[#[trigger] expected.ordered()[j]] == actual@[expected.ordered()[j]],
        decreases n - i,
    {
        if !expected.key_at(i).equals(actual.key_at(i)) {
            return false;
        }
        if *expected.value_at(i) != *actual.value_at(i) {
            return false;
        }
        i += 1;
    }
    proof {
        assert(expected.ordered() =~= actual.ordered());
        assert forall|k: Path| expected@.contains_key(k) implies expected@[k] == actual@[k] by {
            assert(expected.ordered().to_set().contains(k));
            let j = choose|j: int|
                0 <= j < expected.ordered().len() && expected.ordered()[j] == k;
            assert(expected@[expected.ordered()[j]] == actual@[expected.ordered()[j]]);
        }
        assert(expected@ =~= actual@);
    }
    true
}

/// Checks that the final state is the expected one.
pub fn assert_state_matches(expected: &OrdMap<Key, Inode>, actual: &OrdMap<Key, Inode>) -> (r:
    Result<()>)
    ensures
        match r {
            Ok(_) => expected@ == actual@,
            Err(Error::Checker(CheckerFault::StateMismatch { expected: e, actual: a })) => {
                expected@ != actual@ && e@ == expected@ && a@ == actual@
            },
            Err(_) => false,
        },
{
    if !same_state(expected, actual) {
        return Err(
            Error::Checker(
                CheckerFault::StateMismatch { expected: expected.clone(), actual: actual.clone() },
            ),
        );
    }
    Ok(())
}

} // verus!
