//! What holds of every operation.

use crate::engine::calvin;
use crate::executor;
use crate::laws::tree;
use crate::model::{FsOpView, Inode, NodeKind, OrderedTxView, TxResult, WriteOpView};
use crate::path;
use crate::path::Path;
use crate::serial;
use crate::state;
use crate::state::{Reads, State};
use vstd::prelude::*;

verus! {

/// An operation writes no key but those it may write.
pub proof fn lemma_writes_within(op: FsOpView, reads: Reads)
    ensures
        state::write_targets(executor::execute(op, reads).writes).subset_of(
            executor::write_keys(op),
        ),
{
    let writes = executor::execute(op, reads).writes;
    assert forall|k: Path| state::write_targets(writes).contains(
        k,
    ) implies executor::write_keys(op).contains(k) by {
        let i = choose|i: int| 0 <= i < writes.len() && (#[trigger] writes[i]).target() == k;
        assert(writes[i].target() == k);
    }
}

/// An operation that does not succeed writes nothing; neither does a look.
pub proof fn lemma_refusal_writes_nothing(op: FsOpView, reads: Reads)
    requires
        executor::execute(op, reads).result != TxResult::Success || op is Stat,
    ensures
        executor::execute(op, reads).writes == Seq::<WriteOpView>::empty(),
{
}

/// What an operation does depends only on the keys it reads.
pub proof fn lemma_reads_decide(op: FsOpView, a: Reads, b: Reads)
    requires
        forall|k: Path| #[trigger]
            executor::read_keys(op).contains(k) ==> a.contains_key(k) == b.contains_key(k) && (
            a.contains_key(k) ==> a[k] == b[k]),
    ensures
        executor::execute(op, a) == executor::execute(op, b),
        executor::overflows(op, a) == executor::overflows(op, b),
{
    match op {
        FsOpView::Create { path } => {
            assert(executor::read_keys(op).contains(path));
            assert(executor::read_keys(op).contains(crate::path::parent_of(path)) || path
                == crate::path::root_path());
        },
        FsOpView::Mkdir { path } => {
            assert(executor::read_keys(op).contains(path));
            assert(executor::read_keys(op).contains(crate::path::parent_of(path)) || path
                == crate::path::root_path());
        },
        FsOpView::Unlink { path } => {
            assert(executor::read_keys(op).contains(path));
            assert(executor::read_keys(op).contains(crate::path::parent_of(path)) || path
                == crate::path::root_path());
        },
        FsOpView::Rmdir { path } => {
            assert(executor::read_keys(op).contains(path));
            assert(executor::read_keys(op).contains(crate::path::parent_of(path)) || path
                == crate::path::root_path());
        },
        FsOpView::Rename { src, dst } => {
            if !executor::rename_refused(src, dst) {
                assert(executor::read_keys(op).contains(src));
                assert(executor::read_keys(op).contains(dst));
                assert(executor::read_keys(op).contains(crate::path::parent_of(src)));
                assert(executor::read_keys(op).contains(crate::path::parent_of(dst)));
            }
        },
        FsOpView::Stat { path } => {
            assert(executor::read_keys(op).contains(path));
        },
    }
}

/// A transaction whose key sets were checked leaves every key alone that it may not
/// write.
pub proof fn lemma_tx_frame(s: State, tx: OrderedTxView, key: Path)
    requires
        calvin::sets_match(tx),
        !tx.write_set.contains(key),
    ensures
        state::value_in(serial::run_tx(s, tx), key) == state::value_in(s, key),
{
    let reads = state::reads_of(s, tx.read_set);
    lemma_writes_within(tx.op, reads);
    state::lemma_writes_frame(s, executor::execute(tx.op, reads).writes, key);
}

/// On states that agree on what it reads, a transaction does the same.
pub proof fn lemma_tx_reads_decide(s: State, t: State, tx: OrderedTxView)
    requires
        forall|k: Path| #[trigger]
            tx.read_set.contains(k) ==> state::value_in(s, k) == state::value_in(t, k),
    ensures
        state::reads_of(s, tx.read_set) == state::reads_of(t, tx.read_set),
{
    let a = state::reads_of(s, tx.read_set);
    let b = state::reads_of(t, tx.read_set);
    assert(a.dom() =~= b.dom());
    assert forall|k: Path| a.contains_key(k) implies #[trigger] a[k] == b[k] by {
        assert(tx.read_set.contains(k));
    }
    assert(a =~= b);
}

/// `reads` gives every key that `op` reads its value in `s`.
pub open spec fn reads_from(reads: Reads, s: State, op: FsOpView) -> bool {
    forall|k: Path| #[trigger]
        executor::read_keys(op).contains(k) ==> reads.contains_key(k) && reads[k]
            == state::value_in(s, k)
}

proof fn lemma_undone(
    s: State,
    p: Path,
    node: Inode,
    make: FsOpView,
    unmake: FsOpView,
    reads: Reads,
    after: Reads,
)
    requires
        p != path::root_path(),
        path::valid_path(p),
        node.child_count == 0,
        ({
            ||| make == (FsOpView::Create { path: p }) && unmake == (FsOpView::Unlink { path: p })
                && node.kind == NodeKind::File
            ||| make == (FsOpView::Mkdir { path: p }) && unmake == (FsOpView::Rmdir { path: p })
                && node.kind == NodeKind::Directory
        }),
        reads_from(reads, s, make),
        executor::execute(make, reads).result == TxResult::Success,
        !executor::overflows(make, reads),
        reads_from(
            after,
            state::apply_writes(s, executor::execute(make, reads).writes),
            unmake,
        ),
    ensures
        executor::execute(unmake, after).result == TxResult::Success,
        state::apply_writes(
            state::apply_writes(s, executor::execute(make, reads).writes),
            executor::execute(unmake, after).writes,
        ) == s,
{
    let d = path::parent_of(p);
    path::lemma_parent_valid(p);
    assert(d != p);
    assert(executor::read_keys(make).contains(p) && executor::read_keys(make).contains(d));
    assert(executor::read_keys(unmake).contains(p) && executor::read_keys(unmake).contains(d));
    let dir = s[d];
    let t = state::apply_writes(s, executor::execute(make, reads).writes);
    tree::lemma_two_writes(
        s,
        WriteOpView::Put { key: d, value: executor::one_more(dir) },
        WriteOpView::Put { key: p, value: node },
    );
    assert(t == s.insert(d, executor::one_more(dir)).insert(p, node));
    tree::lemma_two_writes(
        t,
        WriteOpView::Put { key: d, value: executor::one_less(t[d]) },
        WriteOpView::Delete { key: p },
    );
    assert(t.insert(d, executor::one_less(t[d])).remove(p) =~= s);
}

/// Unlinking what was just created gives the state back. Left out is a count that would
/// overflow.
pub proof fn lemma_unlink_undoes_create(s: State, p: Path, reads: Reads, after: Reads)
    requires
        p != path::root_path(),
        path::valid_path(p),
        reads_from(reads, s, FsOpView::Create { path: p }),
        executor::execute(FsOpView::Create { path: p }, reads).result == TxResult::Success,
        !executor::overflows(FsOpView::Create { path: p }, reads),
        reads_from(
            after,
            state::apply_writes(
                s,
                executor::execute(FsOpView::Create { path: p }, reads).writes,
            ),
            FsOpView::Unlink { path: p },
        ),
    ensures
        ({
            let made = executor::execute(FsOpView::Create { path: p }, reads);
            let undone = executor::execute(FsOpView::Unlink { path: p }, after);
            &&& undone.result == TxResult::Success
            &&& state::apply_writes(state::apply_writes(s, made.writes), undone.writes) == s
        }),
{
    lemma_undone(
        s,
        p,
        Inode { kind: NodeKind::File, child_count: 0 },
        FsOpView::Create { path: p },
        FsOpView::Unlink { path: p },
        reads,
        after,
    );
}

/// Removing the directory that was just made gives the state back. Left out is a count
/// that would overflow.
pub proof fn lemma_rmdir_undoes_mkdir(s: State, p: Path, reads: Reads, after: Reads)
    requires
        p != path::root_path(),
        path::valid_path(p),
        reads_from(reads, s, FsOpView::Mkdir { path: p }),
        executor::execute(FsOpView::Mkdir { path: p }, reads).result == TxResult::Success,
        !executor::overflows(FsOpView::Mkdir { path: p }, reads),
        reads_from(
            after,
            state::apply_writes(s, executor::execute(FsOpView::Mkdir { path: p }, reads).writes),
            FsOpView::Rmdir { path: p },
        ),
    ensures
        ({
            let made = executor::execute(FsOpView::Mkdir { path: p }, reads);
            let undone = executor::execute(FsOpView::Rmdir { path: p }, after);
            &&& undone.result == TxResult::Success
            &&& state::apply_writes(state::apply_writes(s, made.writes), undone.writes) == s
        }),
{
    lemma_undone(
        s,
        p,
        Inode { kind: NodeKind::Directory, child_count: 0 },
        FsOpView::Mkdir { path: p },
        FsOpView::Rmdir { path: p },
        reads,
        after,
    );
}

} // verus!
