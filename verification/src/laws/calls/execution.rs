//! Calls that run an operation, or ask what it reads, writes and waits for.

use crate::collections::{OrdMap, OrdSet};
use crate::engine::batch::would_overflow;
use crate::error::{BatchFault, Error, Result};
use crate::executor;
use crate::executor::{
    derive_read_write_set, execute_deterministic, filter_local_writes, validate_sets,
};
use crate::laws::conflicts;
use crate::laws::operations;
use crate::laws::outcomes;
use crate::model::{
    Batch, FsOp, FsOpView, Inode, Key, NodeKind, OrderedTx, ReadValue, TxExecutionOutput, TxResult,
    WriteOp, WriteOpView,
};
use crate::path;
use crate::path::Path;
use crate::router;
use crate::router::ShardLayout;
use crate::scc::condition::check_success_path_condition;
use crate::scc::plan::{build_scc_batch_plan, SccBatchPlan};
use crate::scc::tables::{
    conflict_mask, semantic_tables, ConflictMask, PathId, SemanticKey, SemanticTables,
};
use crate::state;
use crate::state::{apply_write_op, apply_write_ops, read_keys, read_value, State};
use vstd::prelude::*;

verus! {

/// Running a look: it answers that something is there if and only if something is stored,
/// a file or a directory with any count, and writes nothing.
pub proof fn lemma_run_stat(
    tx: &OrderedTx,
    reads: &OrdMap<Key, ReadValue>,
    r: TxExecutionOutput,
    s: State,
    p: Path,
)
    requires
        call_ensures(execute_deterministic, (tx, reads), r),
        tx@.op == (FsOpView::Stat { path: p }),
        operations::reads_from(reads@, s, tx@.op),
    ensures
        r@.result == TxResult::Success <==> s.contains_key(p),
        r@.result == TxResult::NotFound <==> !s.contains_key(p),
        state::apply_writes(s, r@.writes) == s,
{
    outcomes::lemma_answer_from_reads(s, tx@.op, reads@);
    outcomes::lemma_stat(s, p);
}

/// Running a rename that succeeds: what was stored under the source is stored under the
/// destination, unchanged, and the source is gone. Left out are a count that would
/// overflow and a move right into itself.
pub proof fn lemma_run_rename(
    tx: &OrderedTx,
    reads: &OrdMap<Key, ReadValue>,
    r: TxExecutionOutput,
    s: State,
    src: Path,
    dst: Path,
)
    requires
        call_ensures(execute_deterministic, (tx, reads), r),
        tx@.op == (FsOpView::Rename { src, dst }),
        operations::reads_from(reads@, s, tx@.op),
        path::valid_path(src),
        path::valid_path(dst),
        path::parent_of(dst) != src,
        path::parent_of(src) != path::parent_of(dst) ==> s[path::parent_of(dst)].child_count
            < u64::MAX,
    ensures
        ({
            let t = state::apply_writes(s, r@.writes);
            let sd = path::parent_of(src);
            let dd = path::parent_of(dst);
            &&& r@.result == TxResult::Success <==> {
                &&& src != dst && src != seq!['/'] && dst != seq!['/']
                &&& outcomes::is_dir(s, sd) && outcomes::is_dir(s, dd)
                &&& s.contains_key(src) && !s.contains_key(dst)
                &&& s[src].kind == NodeKind::File || s[src].child_count == 0
            }
            &&& r@.result == TxResult::Success ==> {
                &&& !t.contains_key(src)
                &&& t.contains_key(dst) && t[dst] == s[src]
                &&& forall|k: Path|
                    k != src && k != dst && k != sd && k != dd ==> (#[trigger] t.contains_key(k)
                        <==> s.contains_key(k)) && (s.contains_key(k) ==> t[k] == s[k])
            }
            &&& r@.result != TxResult::Success ==> t == s
        }),
{
    assert(path::root_path() =~= seq!['/']);
    outcomes::lemma_answer_from_reads(s, tx@.op, reads@);
    outcomes::lemma_rename_answer(s, src, dst);
    if r@.result == TxResult::Success {
        outcomes::lemma_rename_moves(s, src, dst);
    }
}

/// Running any operation answers what the operation answers and leaves what it leaves.
pub proof fn lemma_run(
    tx: &OrderedTx,
    reads: &OrdMap<Key, ReadValue>,
    r: TxExecutionOutput,
    s: State,
)
    requires
        call_ensures(execute_deterministic, (tx, reads), r),
        operations::reads_from(reads@, s, tx@.op),
    ensures
        r@.result == outcomes::answer(s, tx@.op),
        state::apply_writes(s, r@.writes) == outcomes::leaves(s, tx@.op),
{
    outcomes::lemma_answer_from_reads(s, tx@.op, reads@);
}

/// The keys that are derived from an operation: the paths that it names, and, but for a
/// look, the directories that hold them. A look writes none of them.
pub proof fn lemma_derived_keys(op: &FsOp, r: Result<(OrdSet<Key>, OrdSet<Key>)>, key: Path)
    requires
        call_ensures(derive_read_write_set, (op,), r),
        op@.valid(),
    ensures
        r is Ok,
        ({
            let held = |p: Path| key == p || p != path::root_path() && key == path::parent_of(p);
            let reads = r->Ok_0.0@.contains(key);
            let writes = r->Ok_0.1@.contains(key);
            match op@ {
                FsOpView::Stat { path } => (reads <==> key == path) && !writes,
                FsOpView::Rename { src, dst } => (reads <==> held(src) || held(dst)) && (writes
                    <==> held(src) || held(dst)),
                FsOpView::Create { path } | FsOpView::Mkdir { path } | FsOpView::Unlink {
                    path,
                } | FsOpView::Rmdir { path } => (reads <==> held(path)) && (writes <==> held(
                    path,
                )),
            }
        }),
{
    outcomes::lemma_keys_of(op@, key);
}

/// A transaction whose sets are checked is taken if and only if they are those that are
/// derived from its operation; a refusal names the first set that is not, and both sets.
pub proof fn lemma_sets_checked(
    tx: &OrderedTx,
    r: Result<()>,
    derived: Result<(OrdSet<Key>, OrdSet<Key>)>,
)
    requires
        call_ensures(validate_sets, (tx,), r),
        call_ensures(derive_read_write_set, (&tx.op,), derived),
    ensures
        derived is Ok,
        ({
            let reads = derived->Ok_0.0@;
            let writes = derived->Ok_0.1@;
            &&& r is Ok <==> tx@.read_set == reads && tx@.write_set == writes
            &&& r matches Err(error) ==> match error {
                Error::InvalidBatch(BatchFault::ReadSetMismatch { tx_id, expected, found }) => {
                    &&& tx_id == tx@.tx_id
                    &&& expected@ == reads && found@ == tx@.read_set
                    &&& tx@.read_set != reads
                },
                Error::InvalidBatch(BatchFault::WriteSetMismatch { tx_id, expected, found }) => {
                    &&& tx_id == tx@.tx_id
                    &&& expected@ == writes && found@ == tx@.write_set
                    &&& tx@.read_set == reads && tx@.write_set != writes
                },
                _ => false,
            }
        }),
{
}

/// Of the writes that are kept for a shard each is to one of its keys and was among those
/// given, and each of those given to one of its keys is kept; if all are its own, all are
/// kept in their order, and if none is, none.
pub proof fn lemma_kept_writes(
    writes: Vec<WriteOp>,
    shard: u64,
    layout: &ShardLayout,
    r: Vec<WriteOp>,
    write: WriteOpView,
)
    requires
        layout.wf(),
        call_ensures(filter_local_writes, (writes, shard, layout), r),
    ensures
        ({
            let given = crate::model::write_views(writes@);
            let kept = crate::model::write_views(r@);
            let own = |w: WriteOpView| router::shard_of(layout.shard_count, w.target()) == shard;
            &&& kept.contains(write) <==> given.contains(write) && own(write)
            &&& (forall|i: int| 0 <= i < given.len() ==> own(#[trigger] given[i])) ==> kept == given
        }),
{
    let given = crate::model::write_views(writes@);
    let own = |w: WriteOpView| router::shard_of(layout.shard_count, w.target()) == shard;
    assert(crate::model::write_views(r@) == given.filter(own));
    if given.contains(write) && own(write) {
        let i = choose|i: int| 0 <= i < given.len() && given[i] == write;
        given.lemma_filter_contains(own, i);
    }
    if given.filter(own).contains(write) {
        given.lemma_filter_contains_rev(own, write);
        let i = choose|i: int|
            0 <= i < given.filter(own).len() && given.filter(own)[i] == write;
        given.lemma_filter_pred(own, i);
    }
    if forall|i: int| 0 <= i < given.len() ==> own(#[trigger] given[i]) {
        lemma_all_kept(given, own);
    }
}

proof fn lemma_all_kept(given: Seq<WriteOpView>, own: spec_fn(WriteOpView) -> bool)
    requires
        forall|i: int| 0 <= i < given.len() ==> own(#[trigger] given[i]),
    ensures
        given.filter(own) == given,
    decreases given.len(),
{
    reveal(Seq::filter);
    if given.len() > 0 {
        let front = given.drop_last();
        assert forall|i: int| 0 <= i < front.len() implies own(#[trigger] front[i]) by {
            assert(own(given[i]));
        }
        lemma_all_kept(front, own);
        assert(own(given[given.len() - 1]));
        assert(front.push(given.last()) =~= given);
    } else {
        assert(given.filter(own) =~= given);
    }
}

/// A write that is applied is what is read next under its key; under all others the same
/// is read as before.
pub proof fn lemma_write_applied(
    kept: &mut OrdMap<Key, Inode>,
    write: WriteOp,
    start: OrdMap<Key, Inode>,
    before: ReadValue,
    end: OrdMap<Key, Inode>,
    found: ReadValue,
    key: &Key,
)
    requires
        start@ == old(kept)@,
        call_ensures(read_value, (&start, key), before),
        call_ensures(apply_write_op, (kept, write), ()),
        end@ == final(kept)@,
        call_ensures(read_value, (&end, key), found),
    ensures
        match write@ {
            WriteOpView::Put { key: k, value } if k == key@ => found == ReadValue::Present(value),
            WriteOpView::Delete { key: k } if k == key@ => found == ReadValue::Missing,
            _ => found == before,
        },
        before == (if start@.contains_key(key@) {
            ReadValue::Present(start@[key@])
        } else {
            ReadValue::Missing
        }),
{
}

/// Writes are applied one after the other.
pub proof fn lemma_writes_applied(
    kept: &mut OrdMap<Key, Inode>,
    writes: &Vec<WriteOp>,
    earlier: Seq<WriteOpView>,
    last: WriteOpView,
    key: Path,
)
    requires
        call_ensures(apply_write_ops, (kept, writes), ()),
        crate::model::write_views(writes@) == earlier.push(last),
    ensures
        match last {
            WriteOpView::Put { key: k, value } if k == key => final(kept)@.contains_key(key)
                && final(kept)@[key] == value,
            WriteOpView::Delete { key: k } if k == key => !final(kept)@.contains_key(key),
            _ => {
                let before = state::apply_writes(old(kept)@, earlier);
                &&& final(kept)@.contains_key(key) <==> before.contains_key(key)
                &&& before.contains_key(key) ==> final(kept)@[key] == before[key]
            },
        },
{
    outcomes::lemma_writes_are_read(old(kept)@, earlier, last, key);
}

/// A read of keys finds under each of them what is stored there, and tells of no other.
pub proof fn lemma_keys_read(
    kept: &OrdMap<Key, Inode>,
    keys: &OrdSet<Key>,
    r: OrdMap<Key, ReadValue>,
    key: Path,
)
    requires
        call_ensures(read_keys, (kept, keys), r),
    ensures
        r@.contains_key(key) <==> keys@.contains(key),
        keys@.contains(key) && kept@.contains_key(key) ==> r@[key] == ReadValue::Present(kept@[key]),
        keys@.contains(key) && !kept@.contains_key(key) ==> r@[key] == ReadValue::Missing,
{
    outcomes::lemma_read_finds(kept@, keys@, key);
}

/// The condition of a look is that something is stored, whatever it is; the condition of
/// any other operation is that of its success. A path that is not that of the operation is
/// never taken. Left out is a move of a path below itself, which meets no condition.
pub proof fn lemma_condition_checked(
    tx: &OrderedTx,
    predicted: PathId,
    reads: &OrdMap<Key, ReadValue>,
    r: Result<bool>,
    s: State,
)
    requires
        call_ensures(check_success_path_condition, (tx, predicted, reads), r),
        tx@.op.valid(),
        !(tx@.op matches FsOpView::Rename { src, dst } && path::strict_ancestor(src, dst)),
        operations::reads_from(reads@, s, tx@.op),
    ensures
        r is Ok,
        r->Ok_0 ==> match predicted {
            PathId::CreateSuccess => tx@.op is Create,
            PathId::MkdirSuccess => tx@.op is Mkdir,
            PathId::UnlinkSuccess => tx@.op is Unlink,
            PathId::RmdirSuccess => tx@.op is Rmdir,
            PathId::RenameSuccess => tx@.op is Rename,
            PathId::StatSuccess => tx@.op is Stat,
        },
        r->Ok_0 ==> outcomes::answer(s, tx@.op) == TxResult::Success,
        outcomes::answer(s, tx@.op) == TxResult::Success && match predicted {
            PathId::CreateSuccess => tx@.op is Create,
            PathId::MkdirSuccess => tx@.op is Mkdir,
            PathId::UnlinkSuccess => tx@.op is Unlink,
            PathId::RmdirSuccess => tx@.op is Rmdir,
            PathId::RenameSuccess => tx@.op is Rename,
            PathId::StatSuccess => tx@.op is Stat,
        } ==> r->Ok_0,
        tx@.op matches FsOpView::Stat { path } ==> predicted is StatSuccess ==> (r->Ok_0
            <==> s.contains_key(path)),
{
    conflicts::lemma_condition_from_state(s, tx@.op, reads@);
    if let FsOpView::Stat { path } = tx@.op {
        outcomes::lemma_stat(s, path);
    }
}

/// The tables keep in order whatever renames or names the root, and what is about nested
/// paths unless both are looks; they keep nothing else in order.
pub proof fn lemma_tables(r: SemanticTables, key: SemanticKey)
    requires
        call_ensures(semantic_tables, (), r),
    ensures
        ({
            let renames = key.path1 is RenameSuccess || key.path2 is RenameSuccess
                || key.conflict_mask is RenameInvolved || key.conflict_mask is RootInvolved;
            let nested = key.conflict_mask is SameTarget || key.conflict_mask
                is LhsTargetIsRhsParent || key.conflict_mask is AncestorDescendant;
            let looks = key.path1 is StatSuccess && key.path2 is StatSuccess;
            &&& r.effect.conflicts(key) <==> renames || nested && !looks
            &&& r.condition.conflicts(key) <==> renames || nested && !looks
        }),
{
    assert(r.effect.conflicts(key) == !crate::scc::tables::compatible(key));
    assert(r.condition.conflicts(key) == !crate::scc::tables::compatible(key));
}

/// How two operations relate, asked of the function: the root counts first, then a rename,
/// then their paths.
pub proof fn lemma_mask(lhs: &FsOp, rhs: &FsOp, r: Result<ConflictMask>)
    requires
        call_ensures(conflict_mask, (lhs, rhs), r),
        lhs@.valid(),
        rhs@.valid(),
    ensures
        r is Ok,
        ({
            let mask = r->Ok_0;
            let p = conflicts::about(lhs@);
            let q = conflicts::about(rhs@);
            let rooted = conflicts::at_root(lhs@) || conflicts::at_root(rhs@);
            let moved = lhs@ is Rename || rhs@ is Rename;
            &&& mask == ConflictMask::RootInvolved <==> rooted
            &&& mask == ConflictMask::RenameInvolved <==> moved && !rooted
            &&& !rooted && !moved ==> {
                &&& mask == ConflictMask::SameTarget <==> p == q
                &&& mask == ConflictMask::LhsTargetIsRhsParent <==> path::parent_of(q) == p
                &&& mask == ConflictMask::AncestorDescendant <==> p != q && conflicts::nested(p, q)
                    && path::parent_of(q) != p
                &&& mask == ConflictMask::SameParentDifferentTarget <==> p != q && path::parent_of(
                    p,
                ) == path::parent_of(q)
                &&& mask == ConflictMask::IndependentSubtree <==> !conflicts::nested(p, q)
                    && path::parent_of(p) != path::parent_of(q)
            }
        }),
{
    conflicts::lemma_relation(lhs@, rhs@);
}

/// A plan that is built holds an edge if and only if it leads from an earlier transaction
/// to a later one and the two are to be kept in order.
pub proof fn lemma_built_edges(batch: &Batch, r: Result<SccBatchPlan>, i: int, j: int)
    requires
        call_ensures(build_scc_batch_plan, (batch,), r),
        0 <= i < batch@.txs.len(),
        0 <= j < batch@.txs.len(),
        batch@.txs.len() <= usize::MAX,
        forall|k: int| 0 <= k < batch@.txs.len() ==> (#[trigger] batch@.txs[k]).op.valid(),
    ensures
        r is Ok,
        r->Ok_0.effect.nodes[i].successors@.contains(j as usize) <==> i < j
            && conflicts::in_the_way(batch@.txs[i].op, batch@.txs[j].op),
        r->Ok_0.condition.nodes[i].successors@.contains(j as usize) <==> i < j
            && conflicts::in_the_way(batch@.txs[i].op, batch@.txs[j].op),
{
    conflicts::lemma_plan_edges(r->Ok_0, batch@.txs, i, j);
}

/// A count is too full to go on only where the operation adds an entry to a directory and
/// that directory holds as many as can be counted; looking, unlinking and removing never
/// run into this.
pub proof fn lemma_overflow_call(
    op: &FsOp,
    reads: &OrdMap<Key, ReadValue>,
    r: bool,
    s: State,
)
    requires
        call_ensures(would_overflow, (op, reads), r),
        op@.valid(),
        operations::reads_from(reads@, s, op@),
    ensures
        op@ is Stat || op@ is Unlink || op@ is Rmdir ==> !r,
        op@ matches FsOpView::Create { path: p } ==> (r <==> p != path::root_path()
            && outcomes::is_dir(s, path::parent_of(p)) && !s.contains_key(p) && s[path::parent_of(
            p,
        )].child_count == u64::MAX),
        op@ matches FsOpView::Mkdir { path: p } ==> (r <==> p != path::root_path()
            && outcomes::is_dir(s, path::parent_of(p)) && !s.contains_key(p) && s[path::parent_of(
            p,
        )].child_count == u64::MAX),
        r ==> outcomes::answer(s, op@) == TxResult::Success,
{
    let known = state::reads_of(s, executor::read_keys(op@));
    operations::lemma_reads_decide(op@, reads@, known);
    match op@ {
        FsOpView::Create { path: p } => outcomes::lemma_create(s, p),
        FsOpView::Mkdir { path: p } => outcomes::lemma_mkdir(s, p),
        FsOpView::Stat { path: p } => outcomes::lemma_stat(s, p),
        FsOpView::Unlink { path: p } => outcomes::lemma_unlink(s, p),
        FsOpView::Rmdir { path: p } => outcomes::lemma_rmdir(s, p),
        FsOpView::Rename { src, dst } => outcomes::lemma_rename_answer(s, src, dst),
    }
}

/// An operation that is not told what it must know answers that it is invalid and writes
/// nothing: a look without its path, an entry without its directory, or without its own
/// path where the directory is one, and a move without either directory.
pub proof fn lemma_untold_call(
    tx: &OrderedTx,
    reads: &OrdMap<Key, ReadValue>,
    r: TxExecutionOutput,
    p: Path,
)
    requires
        call_ensures(execute_deterministic, (tx, reads), r),
        tx@.op.valid(),
        ({
            let d = path::parent_of(p);
            let known_dir = reads@.contains_key(d) && (reads@[d] matches ReadValue::Present(inode)
                && inode.kind == NodeKind::Directory);
            let untold = !reads@.contains_key(d) || known_dir && !reads@.contains_key(p);
            ||| tx@.op == (FsOpView::Stat { path: p }) && !reads@.contains_key(p)
            ||| tx@.op == (FsOpView::Mkdir { path: p }) && p == path::root_path()
                && !reads@.contains_key(p)
            ||| p != path::root_path() && untold && (tx@.op == (FsOpView::Create { path: p })
                || tx@.op == (FsOpView::Mkdir { path: p }) || tx@.op == (FsOpView::Unlink {
                path: p,
            }) || tx@.op == (FsOpView::Rmdir { path: p }))
            ||| tx@.op matches FsOpView::Rename { src, dst } && src == p && !reads@.contains_key(d)
            ||| tx@.op matches FsOpView::Rename { src, dst } && src == p && known_dir
                && !reads@.contains_key(path::parent_of(dst))
        }),
    ensures
        r@.result == TxResult::Invalid,
        r@.writes.len() == 0,
{
}

} // verus!
