//! What a transaction reads and writes, and what it does given its reads.

use crate::collections::{OrdMap, OrdSet};
use crate::error::{BatchFault, Error, Result};
use crate::model;
use crate::model::{
    parent_key, FsOp, FsOpView, Inode, Key, NodeKind, OrderedTx, OrderedTxView, ReadValue,
    TxExecutionOutput,
    TxOutputView, TxResult, WriteOp, WriteOpView,
};
use crate::path;
use crate::path::Path;
use crate::router;
use crate::router::ShardLayout;
use crate::state::Reads;
use vstd::prelude::*;

verus! {

/// The path itself and the directory that holds it, where there is one.
pub open spec fn with_parent(p: Path) -> Set<Path> {
    if p == path::root_path() {
        set![p]
    } else {
        set![path::parent_of(p), p]
    }
}

/// The rename can only be refused: it would move a path onto itself, or it
/// names the root.
pub open spec fn rename_refused(src: Path, dst: Path) -> bool {
    src == dst || src == path::root_path() || dst == path::root_path()
}

/// The keys that `op` reads.
pub open spec fn read_keys(op: FsOpView) -> Set<Path> {
    match op {
        FsOpView::Create { path } => with_parent(path),
        FsOpView::Mkdir { path } => with_parent(path),
        FsOpView::Unlink { path } => with_parent(path),
        FsOpView::Rmdir { path } => with_parent(path),
        FsOpView::Rename { src, dst } => with_parent(src).union(with_parent(dst)),
        FsOpView::Stat { path } => set![path],
    }
}

/// The keys that `op` may write.
pub open spec fn write_keys(op: FsOpView) -> Set<Path> {
    match op {
        FsOpView::Stat { .. } => Set::empty(),
        _ => read_keys(op),
    }
}

/// The outcome with `result` and no writes.
pub open spec fn outcome(result: TxResult) -> TxOutputView {
    TxOutputView { result, writes: Seq::empty() }
}

/// The outcome of a success that makes `writes`.
pub open spec fn success(writes: Seq<WriteOpView>) -> TxOutputView {
    TxOutputView { result: TxResult::Success, writes }
}

/// A directory with one entry more.
pub open spec fn one_more(dir: Inode) -> Inode {
    Inode { kind: dir.kind, child_count: (dir.child_count + 1) as u64 }
}

/// A directory with one entry fewer, but never fewer than none.
pub open spec fn one_less(dir: Inode) -> Inode {
    Inode {
        kind: dir.kind,
        child_count: if dir.child_count == 0 {
            0
        } else {
            (dir.child_count - 1) as u64
        },
    }
}

/// Adding `node` at `path`; nothing where a read that decides was not recorded.
pub open spec fn add_entry(p: Path, node: Inode, reads: Reads) -> Option<TxOutputView> {
    let parent = path::parent_of(p);
    if !reads.contains_key(parent) {
        None
    } else {
        match reads[parent] {
            ReadValue::Missing => Some(outcome(TxResult::NotFound)),
            ReadValue::Present(dir) => if dir.kind != NodeKind::Directory {
                Some(outcome(TxResult::NotDirectory))
            } else if !reads.contains_key(p) {
                None
            } else if reads[p] != ReadValue::Missing {
                Some(outcome(TxResult::AlreadyExists))
            } else {
                Some(
                    success(
                        seq![
                            WriteOpView::Put { key: parent, value: one_more(dir) },
                            WriteOpView::Put { key: p, value: node },
                        ],
                    ),
                )
            },
        }
    }
}

/// Why the removal of `node` is refused: `unlink` takes no directory, `rmdir`
/// takes nothing else and no directory with entries.
pub open spec fn removal_refusal(kind: NodeKind, node: Inode) -> Option<TxResult> {
    match kind {
        NodeKind::File => if node.kind == NodeKind::Directory {
            Some(TxResult::Invalid)
        } else {
            None
        },
        NodeKind::Directory => if node.kind != NodeKind::Directory {
            Some(TxResult::NotDirectory)
        } else if node.child_count > 0 {
            Some(TxResult::DirectoryNotEmpty)
        } else {
            None
        },
    }
}

/// Removing the file or the empty directory at `path`; nothing where a read
/// that decides was not recorded.
pub open spec fn remove_entry(p: Path, kind: NodeKind, reads: Reads) -> Option<TxOutputView> {
    let parent = path::parent_of(p);
    if !reads.contains_key(parent) {
        None
    } else {
        match reads[parent] {
            ReadValue::Missing => Some(outcome(TxResult::NotFound)),
            ReadValue::Present(dir) => if dir.kind != NodeKind::Directory {
                Some(outcome(TxResult::NotDirectory))
            } else if !reads.contains_key(p) {
                None
            } else {
                match reads[p] {
                    ReadValue::Missing => Some(outcome(TxResult::NotFound)),
                    ReadValue::Present(node) => match removal_refusal(kind, node) {
                        Some(result) => Some(outcome(result)),
                        None => Some(
                            success(
                                seq![
                                    WriteOpView::Put { key: parent, value: one_less(dir) },
                                    WriteOpView::Delete { key: p },
                                ],
                            ),
                        ),
                    },
                }
            },
        }
    }
}

/// The writes of a rename that succeeds.
pub open spec fn move_writes(
    src: Path,
    dst: Path,
    node: Inode,
    src_dir: Inode,
    dst_dir: Inode,
) -> Seq<WriteOpView> {
    let moved = seq![WriteOpView::Delete { key: src }, WriteOpView::Put { key: dst, value: node }];
    if path::parent_of(src) == path::parent_of(dst) {
        moved
    } else {
        moved + seq![
            WriteOpView::Put { key: path::parent_of(src), value: one_less(src_dir) },
            WriteOpView::Put { key: path::parent_of(dst), value: one_more(dst_dir) },
        ]
    }
}

/// Moving the file or the empty directory at `src` to `dst`; nothing where a
/// read that decides was not recorded.
pub open spec fn move_entry(src: Path, dst: Path, reads: Reads) -> Option<TxOutputView> {
    let src_parent = path::parent_of(src);
    let dst_parent = path::parent_of(dst);
    if rename_refused(src, dst) {
        Some(outcome(TxResult::Invalid))
    } else if !reads.contains_key(src_parent) {
        None
    } else if reads[src_parent] == ReadValue::Missing {
        Some(outcome(TxResult::NotFound))
    } else if !reads.contains_key(dst_parent) {
        None
    } else if reads[dst_parent] == ReadValue::Missing {
        Some(outcome(TxResult::NotFound))
    } else if reads[src_parent]->Present_0.kind != NodeKind::Directory
        || reads[dst_parent]->Present_0.kind != NodeKind::Directory {
        Some(outcome(TxResult::NotDirectory))
    } else if !reads.contains_key(src) {
        None
    } else if reads[src] == ReadValue::Missing {
        Some(outcome(TxResult::NotFound))
    } else if !reads.contains_key(dst) {
        None
    } else if reads[dst] != ReadValue::Missing {
        Some(outcome(TxResult::AlreadyExists))
    } else if reads[src]->Present_0.kind == NodeKind::Directory
        && reads[src]->Present_0.child_count > 0 {
        Some(outcome(TxResult::DirectoryNotEmpty))
    } else {
        Some(
            success(
                move_writes(
                    src,
                    dst,
                    reads[src]->Present_0,
                    reads[src_parent]->Present_0,
                    reads[dst_parent]->Present_0,
                ),
            ),
        )
    }
}

/// Looking at `path`.
pub open spec fn look_up(p: Path, reads: Reads) -> Option<TxOutputView> {
    if !reads.contains_key(p) {
        None
    } else if reads[p] == ReadValue::Missing {
        Some(outcome(TxResult::NotFound))
    } else {
        Some(outcome(TxResult::Success))
    }
}

/// Making the root directory.
pub open spec fn make_root(reads: Reads) -> Option<TxOutputView> {
    let root = path::root_path();
    if !reads.contains_key(root) {
        None
    } else if reads[root] != ReadValue::Missing {
        Some(outcome(TxResult::AlreadyExists))
    } else {
        Some(
            success(
                seq![
                    WriteOpView::Put {
                        key: root,
                        value: Inode { kind: NodeKind::Directory, child_count: 0 },
                    },
                ],
            ),
        )
    }
}

/// What `op` does given `reads`; nothing where a read that decides was not
/// recorded.
pub open spec fn attempt(op: FsOpView, reads: Reads) -> Option<TxOutputView> {
    match op {
        FsOpView::Create { path } => if path == path::root_path() {
            Some(outcome(TxResult::Invalid))
        } else {
            add_entry(path, Inode { kind: NodeKind::File, child_count: 0 }, reads)
        },
        FsOpView::Mkdir { path } => if path == path::root_path() {
            make_root(reads)
        } else {
            add_entry(path, Inode { kind: NodeKind::Directory, child_count: 0 }, reads)
        },
        FsOpView::Unlink { path } => if path == path::root_path() {
            Some(outcome(TxResult::Invalid))
        } else {
            remove_entry(path, NodeKind::File, reads)
        },
        FsOpView::Rmdir { path } => if path == path::root_path() {
            Some(outcome(TxResult::Invalid))
        } else {
            remove_entry(path, NodeKind::Directory, reads)
        },
        FsOpView::Rename { src, dst } => move_entry(src, dst, reads),
        FsOpView::Stat { path } => look_up(path, reads),
    }
}

/// What `op` does given `reads`. Where a read that decides was not recorded, the
/// operation is invalid.
pub open spec fn execute(op: FsOpView, reads: Reads) -> TxOutputView {
    match attempt(op, reads) {
        Some(output) => output,
        None => outcome(TxResult::Invalid),
    }
}

/// The directory to which `op` adds an entry.
pub open spec fn growing_dir(op: FsOpView) -> Option<Path> {
    match op {
        FsOpView::Create { path } => if path == path::root_path() {
            None
        } else {
            Some(path::parent_of(path))
        },
        FsOpView::Mkdir { path } => if path == path::root_path() {
            None
        } else {
            Some(path::parent_of(path))
        },
        FsOpView::Rename { src, dst } => if rename_refused(src, dst) || path::parent_of(src)
            == path::parent_of(dst) {
            None
        } else {
            Some(path::parent_of(dst))
        },
        _ => None,
    }
}

/// `op` succeeds and would count an entry more in a directory whose count is
/// already the largest there is.
pub open spec fn overflows(op: FsOpView, reads: Reads) -> bool {
    &&& execute(op, reads).result == TxResult::Success
    &&& match growing_dir(op) {
        Some(dir) => reads[dir] matches ReadValue::Present(inode) && inode.child_count == u64::MAX,
        None => false,
    }
}

/// Adds `path` and its parent to `keys`.
fn add_with_parent(keys: &mut OrdSet<Key>, path: &Key)
    ensures
        final(keys)@ == old(keys)@.union(with_parent(path@)),
{
    match parent_key(path) {
        Ok(parent) => {
            let _ = keys.insert(parent);
        },
        Err(_) => {},
    }
    let _ = keys.insert(path.clone());
    assert(keys@ =~= old(keys)@.union(with_parent(path@)));
}

/// The keys that `op` reads and those that it may write.
pub fn derive_read_write_set(op: &FsOp) -> (r: Result<(OrdSet<Key>, OrdSet<Key>)>)
    ensures
        match r {
            Ok((read, write)) => read@ == read_keys(op@) && write@ == write_keys(op@),
            Err(_) => false,
        },
{
    let mut read: OrdSet<Key> = OrdSet::new();
    match op {
        FsOp::Create { path } | FsOp::Mkdir { path } | FsOp::Unlink { path } | FsOp::Rmdir {
            path,
        } => {
            add_with_parent(&mut read, path);
            assert(read@ =~= read_keys(op@));
        },
        FsOp::Rename { src, dst } => {
            add_with_parent(&mut read, src);
            add_with_parent(&mut read, dst);
            assert(read@ =~= read_keys(op@));
        },
        FsOp::Stat { path } => {
            let _ = read.insert(path.clone());
            assert(read@ =~= read_keys(op@));
            return Ok((read, OrdSet::new()));
        },
    }
    let write = read.clone();
    Ok((read, write))
}

/// Why the key sets of `tx` are refused; the read set comes first.
pub open spec fn sets_error(tx: OrderedTxView, error: Error) -> bool {
    match error {
        Error::InvalidBatch(BatchFault::ReadSetMismatch { tx_id, expected, found }) => {
            &&& tx.read_set != read_keys(tx.op)
            &&& tx_id == tx.tx_id
            &&& expected@ == read_keys(tx.op)
            &&& found@ == tx.read_set
        },
        Error::InvalidBatch(BatchFault::WriteSetMismatch { tx_id, expected, found }) => {
            &&& tx.read_set == read_keys(tx.op)
            &&& tx.write_set != write_keys(tx.op)
            &&& tx_id == tx.tx_id
            &&& expected@ == write_keys(tx.op)
            &&& found@ == tx.write_set
        },
        _ => false,
    }
}

/// Checks that the key sets of `tx` are those of its operation.
pub fn validate_sets(tx: &OrderedTx) -> (r: Result<()>)
    ensures
        match r {
            Ok(_) => tx@.read_set == read_keys(tx@.op) && tx@.write_set == write_keys(tx@.op),
            Err(error) => sets_error(tx@, error),
        },
{
    let (read, write) = derive_read_write_set(&tx.op)?;
    if !read.same_as(&tx.read_set) {
        return Err(
            Error::InvalidBatch(
                BatchFault::ReadSetMismatch {
                    tx_id: tx.tx_id,
                    expected: read,
                    found: tx.read_set.clone(),
                },
            ),
        );
    }
    if !write.same_as(&tx.write_set) {
        return Err(
            Error::InvalidBatch(
                BatchFault::WriteSetMismatch {
                    tx_id: tx.tx_id,
                    expected: write,
                    found: tx.write_set.clone(),
                },
            ),
        );
    }
    Ok(())
}

/// The recorded read of `key`.
fn read_key(reads: &OrdMap<Key, ReadValue>, key: &Key) -> (r: Result<Option<Inode>>)
    ensures
        match r {
            Ok(Some(inode)) => reads@.contains_key(key@) && reads@[key@] == ReadValue::Present(
                inode,
            ),
            Ok(None) => reads@.contains_key(key@) && reads@[key@] == ReadValue::Missing,
            Err(Error::InvalidBatch(BatchFault::MissingReadValue(missing))) => {
                !reads@.contains_key(key@) && missing@ == key@
            },
            Err(_) => false,
        },
{
    match reads.get(key) {
        Some(ReadValue::Present(inode)) => Ok(Some(*inode)),
        Some(ReadValue::Missing) => Ok(None),
        None => Err(Error::InvalidBatch(BatchFault::MissingReadValue(key.clone()))),
    }
}

fn no_writes(result: TxResult) -> (r: TxExecutionOutput)
    ensures
        r@ == outcome(result),
{
    let r = TxExecutionOutput { result, writes: Vec::new() };
    assert(r@ =~= outcome(result));
    r
}

fn with_writes(result: TxResult, writes: Vec<WriteOp>) -> (r: TxExecutionOutput)
    ensures
        r@ == (TxOutputView { result, writes: model::write_views(writes@) }),
{
    TxExecutionOutput { result, writes }
}

/// `r` is `expected`, and an error exactly where nothing is expected.
pub open spec fn agrees(r: Result<TxExecutionOutput>, expected: Option<TxOutputView>) -> bool {
    match r {
        Ok(output) => expected == Some(output@),
        Err(_) => expected is None,
    }
}

fn exec_mkdir(path: &Key, reads: &OrdMap<Key, ReadValue>) -> (r: Result<TxExecutionOutput>)
    requires
        !overflows(FsOpView::Mkdir { path: path@ }, reads@),
    ensures
        agrees(r, attempt(FsOpView::Mkdir { path: path@ }, reads@)),
{
    if path.is_root() {
        return match read_key(reads, path)? {
            Some(_) => Ok(no_writes(TxResult::AlreadyExists)),
            None => {
                let output = with_writes(
                    TxResult::Success,
                    vec![WriteOp::Put { key: path.clone(), value: Inode::directory(0) }],
                );
                assert(output@.writes =~= make_root(reads@)->0.writes);
                Ok(output)
            },
        };
    }
    exec_add(path, Inode::directory(0), reads)
}

fn exec_create(path: &Key, reads: &OrdMap<Key, ReadValue>) -> (r: Result<TxExecutionOutput>)
    requires
        !overflows(FsOpView::Create { path: path@ }, reads@),
    ensures
        agrees(r, attempt(FsOpView::Create { path: path@ }, reads@)),
{
    if path.is_root() {
        return Ok(no_writes(TxResult::Invalid));
    }
    exec_add(path, Inode::file(), reads)
}

/// Adds `node` at `path`.
fn exec_add(path: &Key, node: Inode, reads: &OrdMap<Key, ReadValue>) -> (r: Result<
    TxExecutionOutput,
>)
    requires
        path@ != path::root_path(),
        add_entry(path@, node, reads@) matches Some(output) && output.result == TxResult::Success
            ==> reads@[path::parent_of(path@)]->Present_0.child_count < u64::MAX,
    ensures
        agrees(r, add_entry(path@, node, reads@)),
{
    let parent = parent_key(path)?;
    let mut dir = match read_key(reads, &parent)? {
        Some(inode) => inode,
        None => return Ok(no_writes(TxResult::NotFound)),
    };
    if dir.kind != NodeKind::Directory {
        return Ok(no_writes(TxResult::NotDirectory));
    }
    if read_key(reads, path)?.is_some() {
        return Ok(no_writes(TxResult::AlreadyExists));
    }
    dir.child_count += 1;
    let output = with_writes(
        TxResult::Success,
        vec![
            WriteOp::Put { key: parent, value: dir },
            WriteOp::Put { key: path.clone(), value: node },
        ],
    );
    assert(output@.writes =~= add_entry(path@, node, reads@)->0.writes);
    Ok(output)
}

fn exec_stat(path: &Key, reads: &OrdMap<Key, ReadValue>) -> (r: Result<TxExecutionOutput>)
    ensures
        agrees(r, attempt(FsOpView::Stat { path: path@ }, reads@)),
{
    match read_key(reads, path)? {
        Some(_) => Ok(no_writes(TxResult::Success)),
        None => Ok(no_writes(TxResult::NotFound)),
    }
}

fn exec_unlink(path: &Key, reads: &OrdMap<Key, ReadValue>) -> (r: Result<TxExecutionOutput>)
    ensures
        agrees(r, attempt(FsOpView::Unlink { path: path@ }, reads@)),
{
    if path.is_root() {
        return Ok(no_writes(TxResult::Invalid));
    }
    exec_remove(path, NodeKind::File, reads)
}

fn exec_rmdir(path: &Key, reads: &OrdMap<Key, ReadValue>) -> (r: Result<TxExecutionOutput>)
    ensures
        agrees(r, attempt(FsOpView::Rmdir { path: path@ }, reads@)),
{
    if path.is_root() {
        return Ok(no_writes(TxResult::Invalid));
    }
    exec_remove(path, NodeKind::Directory, reads)
}

/// Removes the file or the empty directory at `path`.
fn exec_remove(path: &Key, kind: NodeKind, reads: &OrdMap<Key, ReadValue>) -> (r: Result<
    TxExecutionOutput,
>)
    requires
        path@ != path::root_path(),
    ensures
        agrees(r, remove_entry(path@, kind, reads@)),
{
    let parent = parent_key(path)?;
    let mut dir = match read_key(reads, &parent)? {
        Some(inode) => inode,
        None => return Ok(no_writes(TxResult::NotFound)),
    };
    if dir.kind != NodeKind::Directory {
        return Ok(no_writes(TxResult::NotDirectory));
    }
    let target = match read_key(reads, path)? {
        Some(inode) => inode,
        None => return Ok(no_writes(TxResult::NotFound)),
    };
    match kind {
        NodeKind::File => {
            if target.kind == NodeKind::Directory {
                return Ok(no_writes(TxResult::Invalid));
            }
        },
        NodeKind::Directory => {
            if target.kind != NodeKind::Directory {
                return Ok(no_writes(TxResult::NotDirectory));
            }
            if target.child_count > 0 {
                return Ok(no_writes(TxResult::DirectoryNotEmpty));
            }
        },
    }
    dir.child_count = dir.child_count.saturating_sub(1);
    let output = with_writes(
        TxResult::Success,
        vec![WriteOp::Put { key: parent, value: dir }, WriteOp::Delete { key: path.clone() }],
    );
    assert(output@.writes =~= remove_entry(path@, kind, reads@)->0.writes);
    Ok(output)
}

fn exec_rename(src: &Key, dst: &Key, reads: &OrdMap<Key, ReadValue>) -> (r: Result<
    TxExecutionOutput,
>)
    requires
        !overflows(FsOpView::Rename { src: src@, dst: dst@ }, reads@),
    ensures
        agrees(r, attempt(FsOpView::Rename { src: src@, dst: dst@ }, reads@)),
{
    if src.equals(dst) || src.is_root() || dst.is_root() {
        return Ok(no_writes(TxResult::Invalid));
    }
    let src_parent = parent_key(src)?;
    let dst_parent = parent_key(dst)?;
    let mut src_dir = match read_key(reads, &src_parent)? {
        Some(inode) => inode,
        None => return Ok(no_writes(TxResult::NotFound)),
    };
    let mut dst_dir = match read_key(reads, &dst_parent)? {
        Some(inode) => inode,
        None => return Ok(no_writes(TxResult::NotFound)),
    };
    if src_dir.kind != NodeKind::Directory || dst_dir.kind != NodeKind::Directory {
        return Ok(no_writes(TxResult::NotDirectory));
    }
    let node = match read_key(reads, src)? {
        Some(inode) => inode,
        None => return Ok(no_writes(TxResult::NotFound)),
    };
    if read_key(reads, dst)?.is_some() {
        return Ok(no_writes(TxResult::AlreadyExists));
    }
    if node.kind == NodeKind::Directory && node.child_count > 0 {
        return Ok(no_writes(TxResult::DirectoryNotEmpty));
    }
    let ghost expected = move_writes(src@, dst@, node, src_dir, dst_dir);
    let mut writes = vec![
        WriteOp::Delete { key: src.clone() },
        WriteOp::Put { key: dst.clone(), value: node },
    ];
    if !src_parent.equals(&dst_parent) {
        src_dir.child_count = src_dir.child_count.saturating_sub(1);
        dst_dir.child_count += 1;
        writes.push(WriteOp::Put { key: src_parent, value: src_dir });
        writes.push(WriteOp::Put { key: dst_parent, value: dst_dir });
    }
    assert(model::write_views(writes@) =~= expected);
    Ok(with_writes(TxResult::Success, writes))
}

/// Runs `tx` on what it read. A read that decides but was not recorded makes it
/// invalid.
pub fn execute_deterministic(tx: &OrderedTx, full_reads: &OrdMap<Key, ReadValue>) -> (r:
    TxExecutionOutput)
    requires
        !overflows(tx@.op, full_reads@),
    ensures
        r@ == execute(tx@.op, full_reads@),
{
    let output = match &tx.op {
        FsOp::Mkdir { path } => exec_mkdir(path, full_reads),
        FsOp::Create { path } => exec_create(path, full_reads),
        FsOp::Stat { path } => exec_stat(path, full_reads),
        FsOp::Unlink { path } => exec_unlink(path, full_reads),
        FsOp::Rmdir { path } => exec_rmdir(path, full_reads),
        FsOp::Rename { src, dst } => exec_rename(src, dst, full_reads),
    };
    match output {
        Ok(output) => output,
        Err(_) => no_writes(TxResult::Invalid),
    }
}

/// The writes of `writes` to keys on `shard`.
pub open spec fn local_writes(
    writes: Seq<WriteOpView>,
    shard: u64,
    shard_count: u64,
) -> Seq<WriteOpView> {
    writes.filter(|w: WriteOpView| router::shard_of(shard_count, w.target()) == shard)
}

/// Keeps the writes to keys on `local_shard`, in order.
pub fn filter_local_writes(
    writes: Vec<WriteOp>,
    local_shard: u64,
    layout: &ShardLayout,
) -> (r: Vec<WriteOp>)
    requires
        layout.wf(),
    ensures
        model::write_views(r@) == local_writes(
            model::write_views(writes@),
            local_shard,
            layout.shard_count,
        ),
{
    let mut kept: Vec<WriteOp> = Vec::new();
    let ghost views = model::write_views(writes@);
    let ghost keep = |w: WriteOpView| router::shard_of(layout.shard_count, w.target())
        == local_shard;
    let mut i: usize = 0;
    assert(model::write_views(kept@) =~= views.take(0).filter(keep)) by {
        reveal(Seq::filter);
    }
    while i < writes.len()
        invariant
            i <= writes.len(),
            layout.wf(),
            views == model::write_views(writes@),
            keep == (|w: WriteOpView| router::shard_of(layout.shard_count, w.target())
                == local_shard),
            model::write_views(kept@) == views.take(i as int).filter(keep),
        decreases writes.len() - i,
    {
        let ghost before_kept = kept@;
        if layout.shard_for_key(writes[i].key()) == local_shard {
            kept.push(writes[i].clone());
            assert(model::write_views(kept@) =~= model::write_views(before_kept).push(views[i as int]));
        }
        i += 1;
        proof {
            reveal(Seq::filter);
            assert(views.take(i as int).drop_last() =~= views.take(i - 1));
            assert(views.take(i as int).last() == views[i - 1]);
        }
    }
    assert(views.take(i as int) =~= views);
    kept
}

} // verus!
