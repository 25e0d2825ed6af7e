//! Writes, and the same effects as changes that can be merged.

use crate::model::{Inode, NodeKind, WriteOpView};
use crate::path::Path;
use crate::scc::delta;
use crate::scc::delta::DeltaOpView;
use crate::state;
use crate::state::{Reads, State};
use vstd::prelude::*;

verus! {

/// What is stored under `key`, if anything.
pub open spec fn inode_at(s: State, key: Path) -> Option<Inode> {
    if s.contains_key(key) {
        Some(s[key])
    } else {
        None
    }
}

/// Two states with the same under every key are the same.
pub proof fn lemma_same_inodes(s: State, t: State)
    requires
        forall|k: Path| #[trigger] inode_at(s, k) == inode_at(t, k),
    ensures
        s == t,
{
    assert forall|k: Path| #[trigger] state::value_in(s, k) == state::value_in(t, k) by {
        assert(inode_at(s, k) == inode_at(t, k));
    }
    state::lemma_same_values(s, t);
}

/// What reads of a state recorded is what is stored there.
pub proof fn lemma_found(s: State, keys: Set<Path>, key: Path)
    requires
        keys.contains(key),
    ensures
        delta::found_in(state::reads_of(s, keys), key) == inode_at(s, key),
{
}

/// A read after writes gives back what was written last, and else what was there.
pub proof fn lemma_read_after_writes(s: State, writes: Seq<WriteOpView>, key: Path)
    ensures
        inode_at(state::apply_writes(s, writes), key) == delta::value_after(
            writes,
            key,
            inode_at(s, key),
        ),
    decreases writes.len(),
{
    if writes.len() > 0 {
        lemma_read_after_writes(s, writes.drop_last(), key);
    }
}

/// What a change makes of what is stored under its key; nothing where it does not fit.
pub open spec fn stepped(found: Option<Inode>, op: DeltaOpView) -> Option<Option<Inode>> {
    match op {
        DeltaOpView::Put { value, .. } => Some(Some(value)),
        DeltaOpView::Delete { .. } => Some(None),
        DeltaOpView::AddIntegerField { delta, .. } => match found {
            Some(inode) => if inode.kind == NodeKind::Directory && 0 <= inode.child_count + delta
                <= u64::MAX {
                Some(
                    Some(
                        Inode {
                            kind: NodeKind::Directory,
                            child_count: (inode.child_count + delta) as u64,
                        },
                    ),
                )
            } else {
                None
            },
            None => None,
        },
    }
}

/// The same for no change or one.
pub open spec fn stepped_all(found: Option<Inode>, ops: Seq<DeltaOpView>) -> Option<Option<Inode>> {
    if ops.len() == 0 {
        Some(found)
    } else {
        stepped(found, ops[0])
    }
}

/// A change is about its key alone.
pub proof fn lemma_apply_op_at(s: State, op: DeltaOpView)
    ensures
        match stepped(inode_at(s, op.target()), op) {
            None => delta::apply_op(s, op) is None,
            Some(value) => {
                &&& delta::apply_op(s, op) is Some
                &&& inode_at(delta::apply_op(s, op)->0, op.target()) == value
                &&& forall|k: Path|
                    k != op.target() ==> #[trigger] inode_at(delta::apply_op(s, op)->0, k)
                        == inode_at(s, k)
            },
        },
{
}

/// Making the changes of one run and then those of another is making all of both.
pub proof fn lemma_apply_concat(s: State, a: Seq<DeltaOpView>, b: Seq<DeltaOpView>)
    ensures
        delta::apply_delta(s, a + b) == match delta::apply_delta(s, a) {
            Some(t) => delta::apply_delta(t, b),
            None => None,
        },
    decreases b.len(),
{
    if b.len() == 0 {
        assert(a + b =~= a);
    } else {
        assert((a + b).drop_last() =~= a + b.drop_last());
        assert((a + b).last() == b.last());
        lemma_apply_concat(s, a, b.drop_last());
    }
}

/// The change of one key that `writes` amount to on `reads`.
pub open spec fn change_at(key: Path, reads: Reads, writes: Seq<WriteOpView>) -> Seq<DeltaOpView> {
    let found = delta::found_in(reads, key);
    delta::change(key, found, delta::value_after(writes, key, found))
}

/// There is at most one change per key, and it is about that key.
pub proof fn lemma_change_shape(key: Path, reads: Reads, writes: Seq<WriteOpView>)
    ensures
        change_at(key, reads, writes).len() <= 1,
        change_at(key, reads, writes).len() == 1 ==> change_at(key, reads, writes)[0].target()
            == key,
{
}

/// The changes of different keys can be made wherever each of them fits what is stored
/// under its key, and nothing else changes.
pub proof fn lemma_apply_changes(
    s: State,
    keys: Seq<Path>,
    reads: Reads,
    writes: Seq<WriteOpView>,
) -> (t: State)
    requires
        keys.no_duplicates(),
        forall|i: int|
            0 <= i < keys.len() ==> stepped_all(
                inode_at(s, #[trigger] keys[i]),
                change_at(keys[i], reads, writes),
            ) is Some,
    ensures
        delta::apply_delta(s, delta::changes(keys, reads, writes)) == Some(t),
        forall|k: Path|
            !keys.contains(k) ==> #[trigger] inode_at(t, k) == inode_at(s, k),
        forall|i: int|
            0 <= i < keys.len() ==> Some(inode_at(t, #[trigger] keys[i])) == stepped_all(
                inode_at(s, keys[i]),
                change_at(keys[i], reads, writes),
            ),
    decreases keys.len(),
{
    if keys.len() == 0 {
        s
    } else {
        let front = keys.drop_last();
        let key = keys.last();
        let n = keys.len() - 1;
        assert forall|i: int| 0 <= i < front.len() implies stepped_all(
            inode_at(s, #[trigger] front[i]),
            change_at(front[i], reads, writes),
        ) is Some by {
            assert(keys[i] == front[i]);
        }
        let u = lemma_apply_changes(s, front, reads, writes);
        assert(!front.contains(key)) by {
            if front.contains(key) {
                let i = choose|i: int| 0 <= i < front.len() && front[i] == key;
                assert(keys[i] == keys[n]);
            }
        }
        let ops = change_at(key, reads, writes);
        lemma_change_shape(key, reads, writes);
        lemma_apply_concat(s, delta::changes(front, reads, writes), ops);
        assert(inode_at(u, key) == inode_at(s, key));
        assert(keys[n] == key);
        let t = if ops.len() == 0 {
            u
        } else {
            lemma_apply_op_at(u, ops[0]);
            assert(ops.drop_last() =~= Seq::<DeltaOpView>::empty());
            assert(delta::apply_delta(u, ops.drop_last()) == Some(u));
            delta::apply_op(u, ops[0])->0
        };
        assert(delta::apply_delta(u, ops) == Some(t));
        assert forall|k: Path| !keys.contains(k) implies #[trigger] inode_at(t, k) == inode_at(
            s,
            k,
        ) by {
            if front.contains(k) {
                let i = choose|i: int| 0 <= i < front.len() && front[i] == k;
                assert(keys[i] == k);
            }
            if k == key {
                assert(keys.contains(k));
            }
        }
        assert forall|i: int| 0 <= i < keys.len() implies Some(inode_at(t, #[trigger] keys[i]))
            == stepped_all(inode_at(s, keys[i]), change_at(keys[i], reads, writes)) by {
            if i < n {
                assert(front[i] == keys[i]);
                assert(keys[i] != keys[n]);
            }
        }
        t
    }
}

/// The change between two values leads from the one to the other.
pub proof fn lemma_change_leads(key: Path, found: Option<Inode>, after: Option<Inode>)
    requires
        !delta::change_out_of_range(found, after),
    ensures
        stepped_all(found, delta::change(key, found, after)) == Some(after),
{
}

/// The effect of writes as changes, made where the writes were worked out, is what the
/// writes do.
pub proof fn lemma_delta_round_trip(
    s: State,
    keys: Seq<Path>,
    read_set: Set<Path>,
    writes: Seq<WriteOpView>,
)
    requires
        keys.no_duplicates(),
        keys.to_set().subset_of(read_set),
        state::write_targets(writes).subset_of(keys.to_set()),
        delta::all_in_range(keys, state::reads_of(s, read_set), writes),
    ensures
        delta::apply_delta(s, delta::changes(keys, state::reads_of(s, read_set), writes)) == Some(
            state::apply_writes(s, writes),
        ),
{
    let reads = state::reads_of(s, read_set);
    assert forall|i: int| 0 <= i < keys.len() implies stepped_all(
        inode_at(s, #[trigger] keys[i]),
        change_at(keys[i], reads, writes),
    ) == Some(delta::value_after(writes, keys[i], inode_at(s, keys[i]))) by {
        assert(keys.to_set().contains(keys[i]));
        lemma_found(s, read_set, keys[i]);
        assert(!delta::out_of_range_at(keys, reads, writes, i));
        lemma_change_leads(
            keys[i],
            inode_at(s, keys[i]),
            delta::value_after(writes, keys[i], inode_at(s, keys[i])),
        );
    }
    let t = lemma_apply_changes(s, keys, reads, writes);
    assert forall|k: Path| #[trigger] inode_at(t, k) == inode_at(
        state::apply_writes(s, writes),
        k,
    ) by {
        lemma_read_after_writes(s, writes, k);
        if keys.contains(k) {
            let i = choose|i: int| 0 <= i < keys.len() && keys[i] == k;
            assert(keys[i] == k);
        } else {
            assert(!keys.to_set().contains(k));
            state::lemma_writes_frame(s, writes, k);
        }
    }
    lemma_same_inodes(t, state::apply_writes(s, writes));
}

/// Two changes of one count can be made in either order, where both orders fit; the
/// outcome is the same.
pub proof fn lemma_counts_commute(s: State, a: DeltaOpView, b: DeltaOpView)
    requires
        a is AddIntegerField,
        b is AddIntegerField,
        delta::apply_delta(s, seq![a, b]) is Some,
        delta::apply_delta(s, seq![b, a]) is Some,
    ensures
        delta::apply_delta(s, seq![a, b]) == delta::apply_delta(s, seq![b, a]),
{
    reveal_with_fuel(delta::apply_delta, 3);
    let ab = seq![a, b];
    let ba = seq![b, a];
    assert(ab.drop_last() =~= seq![a]);
    assert(ba.drop_last() =~= seq![b]);
    assert(seq![a].drop_last() =~= Seq::<DeltaOpView>::empty());
    assert(seq![b].drop_last() =~= Seq::<DeltaOpView>::empty());
    let t = delta::apply_delta(s, ab)->0;
    let u = delta::apply_delta(s, ba)->0;
    assert(t =~= u);
}

/// Changes of different keys can be made in either order.
pub proof fn lemma_changes_commute(s: State, a: DeltaOpView, b: DeltaOpView)
    requires
        a.target() != b.target(),
    ensures
        delta::apply_delta(s, seq![a, b]) == delta::apply_delta(s, seq![b, a]),
{
    reveal_with_fuel(delta::apply_delta, 3);
    let ab = seq![a, b];
    let ba = seq![b, a];
    assert(ab.drop_last() =~= seq![a]);
    assert(ba.drop_last() =~= seq![b]);
    assert(seq![a].drop_last() =~= Seq::<DeltaOpView>::empty());
    assert(seq![b].drop_last() =~= Seq::<DeltaOpView>::empty());
    lemma_apply_op_at(s, a);
    lemma_apply_op_at(s, b);
    if delta::apply_op(s, a) is Some {
        lemma_apply_op_at(delta::apply_op(s, a)->0, b);
    }
    if delta::apply_op(s, b) is Some {
        lemma_apply_op_at(delta::apply_op(s, b)->0, a);
    }
    if delta::apply_delta(s, ab) is Some && delta::apply_delta(s, ba) is Some {
        let t = delta::apply_delta(s, ab)->0;
        let u = delta::apply_delta(s, ba)->0;
        assert forall|k: Path| #[trigger] inode_at(t, k) == inode_at(u, k) by {
            assert(inode_at(delta::apply_op(s, a)->0, k) == inode_at(s, k) || k == a.target());
            assert(inode_at(delta::apply_op(s, b)->0, k) == inode_at(s, k) || k == b.target());
        }
        lemma_same_inodes(t, u);
    }
}

} // verus!
