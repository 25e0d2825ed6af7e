//! The stored inodes as a map, and what writes do to it.

use crate::collections::{OrdMap, OrdSet};
use crate::model::{Inode, Key, ReadValue, WriteOp, WriteOpView};
use crate::model;
use crate::path::Path;
use vstd::prelude::*;

verus! {

/// What is stored: an inode per path that exists.
pub type State = Map<Path, Inode>;

/// What reads of some keys found.
pub type Reads = Map<Path, ReadValue>;

/// What a read of `key` finds in `state`.
pub open spec fn value_in(state: State, key: Path) -> ReadValue {
    if state.contains_key(key) {
        ReadValue::Present(state[key])
    } else {
        ReadValue::Missing
    }
}

/// What reads of `keys` find in `state`.
pub open spec fn reads_of(state: State, keys: Set<Path>) -> Reads {
    Map::new(|k: Path| keys.contains(k), |k: Path| value_in(state, k))
}

/// `state` after one write.
pub open spec fn apply_write(state: State, write: WriteOpView) -> State {
    match write {
        WriteOpView::Put { key, value } => state.insert(key, value),
        WriteOpView::Delete { key } => state.remove(key),
    }
}

/// `state` after `writes`, made in order.
pub open spec fn apply_writes(state: State, writes: Seq<WriteOpView>) -> State
    decreases writes.len(),
{
    if writes.len() == 0 {
        state
    } else {
        apply_write(apply_writes(state, writes.drop_last()), writes.last())
    }
}

/// The keys that `writes` change.
pub open spec fn write_targets(writes: Seq<WriteOpView>) -> Set<Path> {
    Set::new(|k: Path| exists|i: int| 0 <= i < writes.len() && (#[trigger] writes[i]).target() == k)
}

/// Writes leave alone every key that none of them names.
pub proof fn lemma_writes_frame(state: State, writes: Seq<WriteOpView>, key: Path)
    requires
        !write_targets(writes).contains(key),
    ensures
        value_in(apply_writes(state, writes), key) == value_in(state, key),
    decreases writes.len(),
{
    if writes.len() > 0 {
        let n = writes.len() - 1;
        assert(writes[n].target() != key);
        assert forall|i: int| 0 <= i < n implies (#[trigger] writes.drop_last()[i]).target()
            != key by {
            assert(writes[i].target() != key);
        }
        lemma_writes_frame(state, writes.drop_last(), key);
    }
}

/// What writes leave under a key depends only on what was there before.
pub proof fn lemma_writes_local(s: State, t: State, writes: Seq<WriteOpView>, key: Path)
    requires
        value_in(s, key) == value_in(t, key) || write_targets(writes).contains(key),
    ensures
        value_in(apply_writes(s, writes), key) == value_in(apply_writes(t, writes), key),
    decreases writes.len(),
{
    if writes.len() > 0 {
        let n = writes.len() - 1;
        if writes[n].target() != key {
            if write_targets(writes).contains(key) {
                let i = choose|i: int| 0 <= i < writes.len() && (#[trigger] writes[i]).target() == key;
                assert(writes.drop_last()[i].target() == key);
            }
            lemma_writes_local(s, t, writes.drop_last(), key);
        }
    }
}

/// Two states in which every read finds the same are the same.
pub proof fn lemma_same_values(s: State, t: State)
    requires
        forall|k: Path| #[trigger] value_in(s, k) == value_in(t, k),
    ensures
        s == t,
{
    assert forall|k: Path| #[trigger] s.contains_key(k) <==> t.contains_key(k) by {
        assert(value_in(s, k) == value_in(t, k));
    }
    assert forall|k: Path| s.contains_key(k) implies s[k] == t[k] by {
        assert(value_in(s, k) == value_in(t, k));
    }
    assert(s.dom() =~= t.dom());
    assert(s =~= t);
}

/// Makes one write.
pub fn apply_write_op(state: &mut OrdMap<Key, Inode>, write: WriteOp)
    ensures
        final(state)@ == apply_write(old(state)@, write@),
{
    match write {
        WriteOp::Put { key, value } => {
            let _ = state.insert(key, value);
        },
        WriteOp::Delete { key } => {
            let _ = state.remove(&key);
        },
    }
}

/// Makes `writes` in order.
pub fn apply_write_ops(state: &mut OrdMap<Key, Inode>, writes: &Vec<WriteOp>)
    ensures
        final(state)@ == apply_writes(old(state)@, model::write_views(writes@)),
{
    let ghost views = model::write_views(writes@);
    let mut i: usize = 0;
    while i < writes.len()
        invariant
            i <= writes.len(),
            views == model::write_views(writes@),
            state@ == apply_writes(old(state)@, views.take(i as int)),
        decreases writes.len() - i,
    {
        apply_write_op(state, writes[i].clone());
        i += 1;
        proof {
            assert(views.take(i as int).drop_last() =~= views.take(i - 1));
            assert(views.take(i as int).last() == views[i - 1]);
        }
    }
    assert(views.take(i as int) =~= views);
}

/// What a read of `key` finds in `state`.
pub fn read_value(state: &OrdMap<Key, Inode>, key: &Key) -> (r: ReadValue)
    ensures
        r == value_in(state@, key@),
{
    match state.get(key) {
        Some(inode) => ReadValue::Present(*inode),
        None => ReadValue::Missing,
    }
}

/// What reads of `keys` find in `state`.
pub fn read_keys(state: &OrdMap<Key, Inode>, keys: &OrdSet<Key>) -> (r: OrdMap<Key, ReadValue>)
    ensures
        r@ == reads_of(state@, keys@),
{
    let n = keys.len();
    let mut reads: OrdMap<Key, ReadValue> = OrdMap::new();
    let mut i: usize = 0;
    assert(reads@ =~= reads_of(state@, keys.ordered().take(0).to_set()));
    while i < n
        invariant
            i <= n,
            n == keys.ordered().len(),
            reads@ == reads_of(state@, keys.ordered().take(i as int).to_set()),
        decreases n - i,
    {
        let key = keys.at(i);
        let _ = reads.insert(key.clone(), read_value(state, key));
        proof {
            crate::collections::lemma_take_to_set(keys.ordered(), i as int);
        }
        i += 1;
        assert(reads@ =~= reads_of(state@, keys.ordered().take(i as int).to_set()));
    }
    assert(keys.ordered().take(i as int) =~= keys.ordered());
    reads
}

} // verus!
