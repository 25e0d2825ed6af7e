//! The condition under which an operation takes its success path.

use crate::collections::OrdMap;
use crate::error::Result;
use crate::executor;
use crate::model::{FsOp, FsOpView, Inode, Key, NodeKind, OrderedTx, ReadValue};
use crate::path;
use crate::path::Path;
use crate::scc::tables;
use crate::scc::tables::{is_strict_ancestor, predicted_path, PathId};
use crate::state::Reads;
use vstd::prelude::*;

verus! {

/// The recorded inode; a read that was not recorded counts as missing.
pub open spec fn seen(reads: Reads, key: Path) -> Option<Inode> {
    if reads.contains_key(key) {
        match reads[key] {
            ReadValue::Present(inode) => Some(inode),
            ReadValue::Missing => None,
        }
    } else {
        None
    }
}

/// A directory was found under `key`.
pub open spec fn seen_dir(reads: Reads, key: Path) -> bool {
    seen(reads, key) matches Some(inode) && inode.kind == NodeKind::Directory
}

/// The entry under `key` can be moved: a file or a directory without entries.
pub open spec fn movable(reads: Reads, key: Path) -> bool {
    seen(reads, key) matches Some(inode) && (inode.kind == NodeKind::File || inode.child_count == 0)
}

/// A new entry can be made at `p`; the root where it is missing.
pub open spec fn can_add(p: Path, reads: Reads) -> bool {
    if p == path::root_path() {
        reads.contains_key(p) && reads[p] == ReadValue::Missing
    } else {
        seen_dir(reads, path::parent_of(p)) && seen(reads, p) is None
    }
}

/// The condition under which `op` takes its success path, given `reads`.
pub open spec fn success_condition(op: FsOpView, reads: Reads) -> bool {
    match op {
        FsOpView::Create { path } => path != path::root_path() && can_add(path, reads),
        FsOpView::Mkdir { path } => can_add(path, reads),
        FsOpView::Unlink { path } => {
            &&& path != path::root_path()
            &&& seen_dir(reads, path::parent_of(path))
            &&& seen(reads, path) matches Some(inode) && inode.kind == NodeKind::File
        },
        FsOpView::Rmdir { path } => {
            &&& path != path::root_path()
            &&& seen_dir(reads, path::parent_of(path))
            &&& seen_dir(reads, path)
            &&& movable(reads, path)
        },
        FsOpView::Rename { src, dst } => {
            &&& !executor::rename_refused(src, dst)
            &&& !path::strict_ancestor(src, dst)
            &&& seen_dir(reads, path::parent_of(src))
            &&& seen_dir(reads, path::parent_of(dst))
            &&& movable(reads, src)
            &&& seen(reads, dst) is None
        },
        FsOpView::Stat { path } => seen(reads, path) is Some,
    }
}

fn read_value_to_option_for_key(reads: &OrdMap<Key, ReadValue>, key: &Key) -> (r: Option<Inode>)
    ensures
        r == seen(reads@, key@),
{
    match reads.get(key) {
        Some(ReadValue::Present(inode)) => Some(*inode),
        Some(ReadValue::Missing) => None,
        None => None,
    }
}

fn is_seen_dir(reads: &OrdMap<Key, ReadValue>, key: &Key) -> (r: bool)
    ensures
        r == seen_dir(reads@, key@),
{
    match read_value_to_option_for_key(reads, key) {
        Some(inode) => inode.kind == NodeKind::Directory,
        None => false,
    }
}

fn check_create_like(path: &Key, reads: &OrdMap<Key, ReadValue>) -> (r: Result<bool>)
    ensures
        match r {
            Ok(holds) => holds == can_add(path@, reads@),
            Err(_) => false,
        },
{
    if path.is_root() {
        return Ok(
            match reads.get(path) {
                Some(ReadValue::Missing) => true,
                _ => false,
            },
        );
    }
    let parent = path.parent()?;
    Ok(is_seen_dir(reads, &parent) && read_value_to_option_for_key(reads, path).is_none())
}

fn check_unlink_success(path: &Key, reads: &OrdMap<Key, ReadValue>) -> (r: Result<bool>)
    ensures
        match r {
            Ok(holds) => holds == success_condition(FsOpView::Unlink { path: path@ }, reads@),
            Err(_) => false,
        },
{
    if path.is_root() {
        return Ok(false);
    }
    let parent = path.parent()?;
    let target_is_file = match read_value_to_option_for_key(reads, path) {
        Some(inode) => inode.kind == NodeKind::File,
        None => false,
    };
    Ok(is_seen_dir(reads, &parent) && target_is_file)
}

fn check_rmdir_success(path: &Key, reads: &OrdMap<Key, ReadValue>) -> (r: Result<bool>)
    ensures
        match r {
            Ok(holds) => holds == success_condition(FsOpView::Rmdir { path: path@ }, reads@),
            Err(_) => false,
        },
{
    if path.is_root() {
        return Ok(false);
    }
    let parent = path.parent()?;
    let target_is_empty_dir = match read_value_to_option_for_key(reads, path) {
        Some(inode) => inode.kind == NodeKind::Directory && inode.child_count == 0,
        None => false,
    };
    Ok(is_seen_dir(reads, &parent) && target_is_empty_dir)
}

fn check_rename_success(src: &Key, dst: &Key, reads: &OrdMap<Key, ReadValue>) -> (r: Result<bool>)
    ensures
        match r {
            Ok(holds) => holds == success_condition(
                FsOpView::Rename { src: src@, dst: dst@ },
                reads@,
            ),
            Err(_) => false,
        },
{
    if src.equals(dst) || src.is_root() || dst.is_root() {
        return Ok(false);
    }
    if is_strict_ancestor(src, dst) {
        return Ok(false);
    }
    let src_parent = src.parent()?;
    let dst_parent = dst.parent()?;
    let src_is_movable = match read_value_to_option_for_key(reads, src) {
        Some(inode) => inode.kind == NodeKind::File || inode.child_count == 0,
        None => false,
    };
    Ok(
        is_seen_dir(reads, &src_parent) && is_seen_dir(reads, &dst_parent)
            && read_value_to_option_for_key(reads, dst).is_none() && src_is_movable,
    )
}

/// Whether `tx` takes the success path `predicted`, given `reads`.
pub fn check_success_path_condition(
    tx: &OrderedTx,
    predicted: PathId,
    reads: &OrdMap<Key, ReadValue>,
) -> (r: Result<bool>)
    ensures
        match r {
            Ok(holds) => holds == (predicted == tables::success_path(tx@.op) && success_condition(
                tx@.op,
                reads@,
            )),
            Err(_) => false,
        },
{
    if predicted != predicted_path(&tx.op) {
        return Ok(false);
    }
    match &tx.op {
        FsOp::Create { path } => if path.is_root() {
            Ok(false)
        } else {
            check_create_like(path, reads)
        },
        FsOp::Mkdir { path } => check_create_like(path, reads),
        FsOp::Unlink { path } => check_unlink_success(path, reads),
        FsOp::Rmdir { path } => check_rmdir_success(path, reads),
        FsOp::Rename { src, dst } => check_rename_success(src, dst, reads),
        FsOp::Stat { path } => Ok(read_value_to_option_for_key(reads, path).is_some()),
    }
}

} // verus!
