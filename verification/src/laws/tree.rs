//! What is stored is a tree, and its directories count their entries.

use crate::executor;
use crate::model::{
    BatchView, FsOpView, Inode, NodeKind, OrderedTxView, TxResult, WriteOpView,
};
use crate::path;
use crate::path::Path;
use crate::serial;
use crate::state;
use crate::state::State;
use vstd::prelude::*;

verus! {

/// The entries of a directory.
pub open spec fn entries(s: State, dir: Path) -> Set<Path> {
    s.dom().filter(|k: Path| k != path::root_path() && path::parent_of(k) == dir)
}

/// Every path is well formed, everything but the root is in a directory, and everything
/// counts its entries.
pub open spec fn is_tree(s: State) -> bool {
    &&& s.dom().finite()
    &&& forall|k: Path| #[trigger] s.contains_key(k) ==> path::valid_path(k)
    &&& forall|k: Path| #[trigger]
        s.contains_key(k) && k != path::root_path() ==> s.contains_key(path::parent_of(k))
            && s[path::parent_of(k)].kind == NodeKind::Directory
    &&& forall|k: Path| #[trigger]
        s.contains_key(k) ==> s[k].child_count == entries(s, k).len()
}

/// A rename would move a directory into itself.
pub open spec fn moves_into_itself(op: FsOpView) -> bool {
    op matches FsOpView::Rename { src, dst } && path::strict_ancestor(src, dst)
}

/// Nothing stored is a tree.
pub proof fn lemma_empty_is_tree()
    ensures
        is_tree(Map::empty()),
{
    let s: State = Map::empty();
    assert(s.dom() =~= Set::<Path>::empty());
}

/// What is missing, or is a file, has no entries.
proof fn lemma_no_entries(s: State, p: Path)
    requires
        is_tree(s),
        !s.contains_key(p) || s[p].kind == NodeKind::File || s[p].child_count == 0,
    ensures
        entries(s, p) == Set::<Path>::empty(),
{
    assert forall|k: Path| !entries(s, p).contains(k) by {
        if entries(s, p).contains(k) {
            assert(s.contains_key(k));
            if s.contains_key(p) && s[p].kind != NodeKind::File {
                assert(entries(s, p).finite());
                assert(entries(s, p).len() == 0);
            }
        }
    }
    assert(entries(s, p) =~= Set::<Path>::empty());
}

/// What is stored has an entry in the count of its directory.
pub proof fn lemma_counted(s: State, p: Path)
    requires
        is_tree(s),
        s.contains_key(p),
        p != path::root_path(),
    ensures
        s.contains_key(path::parent_of(p)),
        s[path::parent_of(p)].child_count > 0,
{
    let d = path::parent_of(p);
    assert(entries(s, d).contains(p));
    assert(entries(s, d).finite());
    if entries(s, d).len() == 0 {
        assert(entries(s, d) =~= Set::<Path>::empty());
    }
}

/// The states that two writes and four writes lead to.
pub proof fn lemma_two_writes(s: State, a: WriteOpView, b: WriteOpView)
    ensures
        state::apply_writes(s, seq![a, b]) == state::apply_write(state::apply_write(s, a), b),
{
    reveal_with_fuel(state::apply_writes, 3);
    assert(seq![a, b].drop_last() =~= seq![a]);
    assert(seq![a].drop_last() =~= Seq::<WriteOpView>::empty());
}

pub proof fn lemma_four_writes(
    s: State,
    a: WriteOpView,
    b: WriteOpView,
    c: WriteOpView,
    d: WriteOpView,
)
    ensures
        state::apply_writes(s, seq![a, b] + seq![c, d]) == state::apply_write(
            state::apply_write(state::apply_write(state::apply_write(s, a), b), c),
            d,
        ),
{
    reveal_with_fuel(state::apply_writes, 3);
    let w = seq![a, b] + seq![c, d];
    assert(w.drop_last() =~= seq![a, b].push(c));
    assert(w.drop_last().drop_last() =~= seq![a, b]);
    lemma_two_writes(s, a, b);
}

/// A tree with one entry more.
proof fn lemma_add_keeps(s: State, p: Path, node: Inode, t: State)
    requires
        is_tree(s),
        path::valid_path(p),
        p != path::root_path(),
        !s.contains_key(p),
        s.contains_key(path::parent_of(p)),
        s[path::parent_of(p)].kind == NodeKind::Directory,
        s[path::parent_of(p)].child_count < u64::MAX,
        node.child_count == 0,
        t == s.insert(path::parent_of(p), executor::one_more(s[path::parent_of(p)])).insert(
            p,
            node,
        ),
    ensures
        is_tree(t),
{
    let d = path::parent_of(p);
    path::lemma_parent_valid(p);
    assert(t.dom() =~= s.dom().insert(p));
    lemma_no_entries(s, p);
    assert forall|k: Path| #[trigger] t.contains_key(k) implies t[k].child_count == entries(
        t,
        k,
    ).len() by {
        if k == d {
            assert(entries(t, d) =~= entries(s, d).insert(p));
            assert(!entries(s, d).contains(p));
            assert(s.contains_key(d));
        } else {
            assert(entries(t, k) =~= entries(s, k));
            if k != p {
                assert(s.contains_key(k));
            }
        }
    }
    assert forall|k: Path| #[trigger] t.contains_key(k)
        && k != path::root_path() implies t.contains_key(
        path::parent_of(k),
    ) && t[path::parent_of(k)].kind == NodeKind::Directory by {
        if k != p {
            assert(s.contains_key(k));
            assert(path::parent_of(k) != p) by {
                if path::parent_of(k) == p {
                    assert(s.contains_key(p));
                }
            }
        }
    }
    assert forall|k: Path| #[trigger] t.contains_key(k) implies path::valid_path(k) by {
        if k != p {
            assert(s.contains_key(k));
        }
    }
}

/// A tree with one entry less, which had no entries itself.
proof fn lemma_remove_keeps(s: State, p: Path, t: State)
    requires
        is_tree(s),
        path::valid_path(p),
        p != path::root_path(),
        s.contains_key(p),
        s[p].kind == NodeKind::File || s[p].child_count == 0,
        t == s.insert(path::parent_of(p), executor::one_less(s[path::parent_of(p)])).remove(p),
    ensures
        is_tree(t),
{
    let d = path::parent_of(p);
    path::lemma_parent_valid(p);
    lemma_counted(s, p);
    lemma_no_entries(s, p);
    assert(t.dom() =~= s.dom().remove(p));
    assert forall|k: Path| #[trigger] t.contains_key(k) implies t[k].child_count == entries(
        t,
        k,
    ).len() by {
        assert(s.contains_key(k));
        if k == d {
            assert(entries(t, d) =~= entries(s, d).remove(p));
            assert(entries(s, d).contains(p));
        } else {
            assert(entries(t, k) =~= entries(s, k));
        }
    }
    assert forall|k: Path| #[trigger] t.contains_key(k)
        && k != path::root_path() implies t.contains_key(
        path::parent_of(k),
    ) && t[path::parent_of(k)].kind == NodeKind::Directory by {
        assert(s.contains_key(k));
        if path::parent_of(k) == p {
            assert(entries(s, p).contains(k));
        }
    }
    assert forall|k: Path| #[trigger] t.contains_key(k) implies path::valid_path(k) by {
        assert(s.contains_key(k));
    }
}

/// A tree in which an entry without entries was moved.
proof fn lemma_move_keeps(s: State, src: Path, dst: Path, t: State)
    requires
        is_tree(s),
        path::valid_path(src),
        path::valid_path(dst),
        !executor::rename_refused(src, dst),
        !path::strict_ancestor(src, dst),
        s.contains_key(src),
        s[src].kind == NodeKind::File || s[src].child_count == 0,
        !s.contains_key(dst),
        s.contains_key(path::parent_of(dst)),
        s[path::parent_of(dst)].kind == NodeKind::Directory,
        path::parent_of(src) != path::parent_of(dst) ==> s[path::parent_of(dst)].child_count
            < u64::MAX,
        t == state::apply_writes(
            s,
            executor::move_writes(
                src,
                dst,
                s[src],
                s[path::parent_of(src)],
                s[path::parent_of(dst)],
            ),
        ),
    ensures
        is_tree(t),
{
    let sd = path::parent_of(src);
    let dd = path::parent_of(dst);
    path::lemma_parent_valid(src);
    path::lemma_parent_valid(dst);
    lemma_counted(s, src);
    lemma_no_entries(s, src);
    lemma_no_entries(s, dst);
    assert(dd != src);
    assert(sd != dst);
    let remove = WriteOpView::Delete { key: src };
    let put = WriteOpView::Put { key: dst, value: s[src] };
    let put_sd = WriteOpView::Put { key: sd, value: executor::one_less(s[sd]) };
    let put_dd = WriteOpView::Put { key: dd, value: executor::one_more(s[dd]) };
    if sd == dd {
        lemma_two_writes(s, remove, put);
    } else {
        lemma_four_writes(s, remove, put, put_sd, put_dd);
    }
    assert(t.dom() =~= s.dom().remove(src).insert(dst));
    assert(entries(s, sd).contains(src));
    assert(s[src].child_count == 0);
    assert forall|k: Path| #[trigger] t.contains_key(k) implies t[k].child_count == entries(
        t,
        k,
    ).len() by {
        if k == dst {
            assert(entries(t, dst) =~= entries(s, dst));
        } else {
            assert(s.contains_key(k));
            if k == sd && k == dd {
                assert(entries(t, k) =~= entries(s, k).remove(src).insert(dst));
            } else if k == sd {
                assert(entries(t, k) =~= entries(s, k).remove(src));
            } else if k == dd {
                assert(entries(t, k) =~= entries(s, k).insert(dst));
                assert(!entries(s, k).contains(dst));
            } else {
                assert(entries(t, k) =~= entries(s, k));
            }
        }
    }
    assert forall|k: Path| #[trigger] t.contains_key(k)
        && k != path::root_path() implies t.contains_key(
        path::parent_of(k),
    ) && t[path::parent_of(k)].kind == NodeKind::Directory by {
        if k != dst {
            assert(s.contains_key(k));
            if path::parent_of(k) == src {
                assert(entries(s, src).contains(k));
            }
            if path::parent_of(k) == dst {
                assert(entries(s, dst).contains(k));
            }
        }
    }
    assert forall|k: Path| #[trigger] t.contains_key(k) implies path::valid_path(k) by {
        if k != dst {
            assert(s.contains_key(k));
        }
    }
}

/// Every transaction leads from a tree to a tree, whatever key sets it names. Left out are a count that would
/// overflow, and the rename of an empty directory to a path below itself: that leaves the
/// directory in place but takes it off the count of the one that holds it.
pub proof fn lemma_tx_keeps_tree(s: State, tx: OrderedTxView)
    requires
        is_tree(s),
        tx.op.valid(),
        !moves_into_itself(tx.op),
        !executor::overflows(tx.op, state::reads_of(s, tx.read_set)),
    ensures
        is_tree(serial::run_tx(s, tx)),
{
    let reads = state::reads_of(s, tx.read_set);
    let output = executor::execute(tx.op, reads);
    let t = serial::run_tx(s, tx);
    if output.result != TxResult::Success || tx.op is Stat {
        crate::laws::operations::lemma_refusal_writes_nothing(tx.op, reads);
        assert(t == s);
    } else {
        match tx.op {
            FsOpView::Create { path } => {
                lemma_adds(s, path, Inode { kind: NodeKind::File, child_count: 0 }, tx);
            },
            FsOpView::Mkdir { path } => {
                if path == path::root_path() {
                    lemma_root_keeps(s, tx);
                } else {
                    lemma_adds(s, path, Inode { kind: NodeKind::Directory, child_count: 0 }, tx);
                }
            },
            FsOpView::Unlink { path } => {
                lemma_removes(s, path, NodeKind::File, tx);
            },
            FsOpView::Rmdir { path } => {
                lemma_removes(s, path, NodeKind::Directory, tx);
            },
            FsOpView::Rename { src, dst } => {
                assert(reads.contains_key(src) && reads.contains_key(dst));
                assert(reads.contains_key(path::parent_of(src)));
                assert(reads.contains_key(path::parent_of(dst)));
                assert(s.contains_key(src));
                lemma_move_keeps(s, src, dst, t);
            },
            FsOpView::Stat { .. } => {},
        }
    }
}

proof fn lemma_adds(s: State, p: Path, node: Inode, tx: OrderedTxView)
    requires
        is_tree(s),
        tx.op.valid(),
        p != path::root_path(),
        node.child_count == 0,
        tx.op == (FsOpView::Create { path: p }) && node.kind == NodeKind::File || tx.op == (
        FsOpView::Mkdir { path: p }) && node.kind == NodeKind::Directory,
        executor::execute(tx.op, state::reads_of(s, tx.read_set)).result == TxResult::Success,
        !executor::overflows(tx.op, state::reads_of(s, tx.read_set)),
    ensures
        is_tree(serial::run_tx(s, tx)),
{
    let d = path::parent_of(p);
    let reads = state::reads_of(s, tx.read_set);
    assert(reads.contains_key(p) && reads.contains_key(d));
    assert(executor::execute(tx.op, reads) == executor::add_entry(p, node, reads)->0);
    lemma_two_writes(
        s,
        WriteOpView::Put { key: d, value: executor::one_more(s[d]) },
        WriteOpView::Put { key: p, value: node },
    );
    lemma_add_keeps(s, p, node, serial::run_tx(s, tx));
}

proof fn lemma_removes(s: State, p: Path, kind: NodeKind, tx: OrderedTxView)
    requires
        is_tree(s),
        tx.op.valid(),
        p != path::root_path(),
        tx.op == (FsOpView::Unlink { path: p }) && kind == NodeKind::File || tx.op == (
        FsOpView::Rmdir { path: p }) && kind == NodeKind::Directory,
        executor::execute(tx.op, state::reads_of(s, tx.read_set)).result == TxResult::Success,
    ensures
        is_tree(serial::run_tx(s, tx)),
{
    let d = path::parent_of(p);
    let reads = state::reads_of(s, tx.read_set);
    assert(reads.contains_key(p) && reads.contains_key(d));
    assert(executor::execute(tx.op, reads) == executor::remove_entry(p, kind, reads)->0);
    lemma_two_writes(
        s,
        WriteOpView::Put { key: d, value: executor::one_less(s[d]) },
        WriteOpView::Delete { key: p },
    );
    lemma_remove_keeps(s, p, serial::run_tx(s, tx));
}

proof fn lemma_root_keeps(s: State, tx: OrderedTxView)
    requires
        is_tree(s),
        tx.op == (FsOpView::Mkdir { path: path::root_path() }),
        executor::execute(tx.op, state::reads_of(s, tx.read_set)).result == TxResult::Success,
    ensures
        is_tree(serial::run_tx(s, tx)),
{
    let root = path::root_path();
    let node = Inode { kind: NodeKind::Directory, child_count: 0 };
    let t = serial::run_tx(s, tx);
    assert(state::reads_of(s, tx.read_set).contains_key(root));
    assert(!s.contains_key(root));
    let put = WriteOpView::Put { key: root, value: node };
    reveal_with_fuel(state::apply_writes, 2);
    assert(seq![put].drop_last() =~= Seq::<WriteOpView>::empty());
    assert(t == s.insert(root, node));
    lemma_no_entries(s, root);
    assert(t.dom() =~= s.dom().insert(root));
    assert forall|k: Path| #[trigger] t.contains_key(k) implies t[k].child_count == entries(
        t,
        k,
    ).len() by {
        assert(entries(t, k) =~= entries(s, k));
        if k != root {
            assert(s.contains_key(k));
        }
    }
    assert forall|k: Path| #[trigger] t.contains_key(k) && k != root implies t.contains_key(
        path::parent_of(k),
    ) && t[path::parent_of(k)].kind == NodeKind::Directory by {
        assert(s.contains_key(k));
    }
    assert forall|k: Path| #[trigger] t.contains_key(k) implies path::valid_path(k) by {
        if k != root {
            assert(s.contains_key(k));
        }
    }
}

/// A transaction on well-formed paths, which does not move a directory into itself.
pub open spec fn orderly(tx: OrderedTxView) -> bool {
    tx.op.valid() && !moves_into_itself(tx.op)
}

/// All of `txs` are orderly.
pub open spec fn all_orderly(txs: Seq<OrderedTxView>) -> bool {
    forall|i: int| 0 <= i < txs.len() ==> orderly(#[trigger] txs[i])
}

/// A run of transactions leads from a tree to a tree.
pub proof fn lemma_run_keeps_tree(s: State, txs: Seq<OrderedTxView>)
    requires
        is_tree(s),
        all_orderly(txs),
        serial::fits(s, txs),
    ensures
        is_tree(serial::run_txs(s, txs)),
    decreases txs.len(),
{
    if txs.len() > 0 {
        let front = txs.drop_last();
        let n = txs.len() - 1;
        assert(txs =~= front + seq![txs[n]]);
        serial::lemma_fits_concat(s, front, seq![txs[n]]);
        assert(all_orderly(front)) by {
            assert forall|i: int| 0 <= i < front.len() implies orderly(#[trigger] front[i]) by {
                assert(front[i] == txs[i]);
            }
        }
        lemma_run_keeps_tree(s, front);
        assert(txs.take(n) =~= front);
        assert(orderly(txs[n]));
        lemma_tx_keeps_tree(serial::run_txs(s, front), txs[n]);
    }
}

/// No directory counts more than `n` entries.
spec fn counts_to(s: State, n: int) -> bool {
    forall|k: Path| #[trigger] s.contains_key(k) ==> s[k].child_count <= n
}

/// A transaction adds at most one to a count.
proof fn lemma_counts_one_more(s: State, tx: OrderedTxView, n: int)
    requires
        counts_to(s, n),
        0 <= n < u64::MAX,
    ensures
        !executor::overflows(tx.op, state::reads_of(s, tx.read_set)),
        counts_to(serial::run_tx(s, tx), n + 1),
{
    let reads = state::reads_of(s, tx.read_set);
    let writes = executor::execute(tx.op, reads).writes;
    match executor::growing_dir(tx.op) {
        Some(dir) => {
            if s.contains_key(dir) {
                assert(s[dir].child_count <= n);
            }
        },
        None => {},
    }
    assert forall|i: int| 0 <= i < writes.len() implies match #[trigger] writes[i] {
        WriteOpView::Put { value, .. } => value.child_count <= n + 1,
        WriteOpView::Delete { .. } => true,
    } by {
        lemma_put_counts(s, tx, n, i);
    }
    lemma_writes_count(s, writes, n + 1);
}

/// What a transaction writes counts at most one more.
proof fn lemma_put_counts(s: State, tx: OrderedTxView, n: int, i: int)
    requires
        counts_to(s, n),
        0 <= n < u64::MAX,
        0 <= i < executor::execute(tx.op, state::reads_of(s, tx.read_set)).writes.len(),
    ensures
        executor::execute(
            tx.op,
            state::reads_of(s, tx.read_set),
        ).writes[i] matches WriteOpView::Put { value, .. } ==> value.child_count <= n + 1,
{
    match tx.op {
        FsOpView::Create { path } | FsOpView::Mkdir { path } | FsOpView::Unlink {
            path,
        } | FsOpView::Rmdir { path } | FsOpView::Stat { path } => {
            assert(s.contains_key(path::parent_of(path)) ==> s[path::parent_of(path)].child_count
                <= n);
        },
        FsOpView::Rename { src, dst } => {
            assert(s.contains_key(src) ==> s[src].child_count <= n);
            assert(s.contains_key(path::parent_of(src)) ==> s[path::parent_of(src)].child_count
                <= n);
            assert(s.contains_key(path::parent_of(dst)) ==> s[path::parent_of(dst)].child_count
                <= n);
        },
    }
}

proof fn lemma_writes_count(s: State, writes: Seq<WriteOpView>, n: int)
    requires
        counts_to(s, n),
        forall|i: int| 0 <= i < writes.len() ==> match #[trigger] writes[i] {
            WriteOpView::Put { value, .. } => value.child_count <= n,
            WriteOpView::Delete { .. } => true,
        },
    ensures
        counts_to(state::apply_writes(s, writes), n),
    decreases writes.len(),
{
    if writes.len() > 0 {
        let front = writes.drop_last();
        assert forall|i: int| 0 <= i < front.len() implies match #[trigger] front[i] {
            WriteOpView::Put { value, .. } => value.child_count <= n,
            WriteOpView::Delete { .. } => true,
        } by {
            assert(front[i] == writes[i]);
        }
        lemma_writes_count(s, front, n);
        let before = state::apply_writes(s, front);
        let after = state::apply_writes(s, writes);
        assert forall|k: Path| #[trigger] after.contains_key(k) implies after[k].child_count
            <= n by {
            assert(writes[writes.len() - 1] == writes.last());
            if before.contains_key(k) {
                assert(before[k].child_count <= n);
            }
        }
    }
}

proof fn lemma_counts_after(txs: Seq<OrderedTxView>)
    requires
        txs.len() <= u64::MAX,
    ensures
        serial::fits(Map::empty(), txs),
        counts_to(serial::run_txs(Map::empty(), txs), txs.len() as int),
    decreases txs.len(),
{
    if txs.len() > 0 {
        let front = txs.drop_last();
        let n = txs.len() - 1;
        lemma_counts_after(front);
        lemma_counts_one_more(serial::run_txs(Map::empty(), front), txs.last(), n);
        assert(txs.take(n) =~= front);
        assert forall|i: int| 0 <= i < txs.len() implies !executor::overflows(
            (#[trigger] txs[i]).op,
            state::reads_of(serial::run_txs(Map::empty(), txs.take(i)), txs[i].read_set),
        ) by {
            if i < n {
                assert(front.take(i) =~= txs.take(i));
                assert(front[i] == txs[i]);
            }
        }
    }
}

/// From nothing, no count overflows unless there are more transactions than fit a count.
pub proof fn lemma_counts_fit(txs: Seq<OrderedTxView>)
    requires
        txs.len() <= u64::MAX,
    ensures
        serial::fits(Map::empty(), txs),
{
    lemma_counts_after(txs);
}

/// Batches that run one transaction after the other, from nothing, lead to a tree, in
/// which files count nothing. Left out are renames of a path to one below it, and more
/// transactions than fit a count.
pub proof fn lemma_batches_make_tree(batches: Seq<BatchView>)
    requires
        all_orderly(serial::all_txs(batches)),
        serial::all_txs(batches).len() <= u64::MAX,
    ensures
        serial::fits(Map::empty(), serial::all_txs(batches)),
        is_tree(serial::run_txs(Map::empty(), serial::all_txs(batches))),
        ({
            let s = serial::run_txs(Map::empty(), serial::all_txs(batches));
            forall|k: Path| #[trigger]
                s.contains_key(k) && s[k].kind == NodeKind::File ==> s[k].child_count == 0
        }),
{
    let txs = serial::all_txs(batches);
    let s = serial::run_txs(Map::empty(), txs);
    lemma_empty_is_tree();
    lemma_counts_fit(txs);
    lemma_run_keeps_tree(Map::empty(), txs);
    assert forall|k: Path| #[trigger]
        s.contains_key(k) && s[k].kind == NodeKind::File implies s[k].child_count == 0 by {
        lemma_no_entries(s, k);
    }
}

} // verus!
