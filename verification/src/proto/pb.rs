//! The messages, field by field.

pub mod fs_op;
pub mod read_entry;
pub mod write_entry;

use vstd::prelude::*;

verus! {

#[derive(Debug, PartialEq, Eq)]
pub struct Create {
    pub path: String,
}

#[derive(Debug, PartialEq, Eq)]
pub struct Mkdir {
    pub path: String,
}

#[derive(Debug, PartialEq, Eq)]
pub struct Unlink {
    pub path: String,
}

#[derive(Debug, PartialEq, Eq)]
pub struct Rmdir {
    pub path: String,
}

#[derive(Debug, PartialEq, Eq)]
pub struct Rename {
    pub src: String,
    pub dst: String,
}

#[derive(Debug, PartialEq, Eq)]
pub struct Stat {
    pub path: String,
}

#[derive(Debug, PartialEq, Eq)]
pub struct FsOp {
    pub op: Option<fs_op::Op>,
}

#[derive(Debug, PartialEq, Eq)]
pub struct OrderedTx {
    pub tx_id: u64,
    pub batch_index: u32,
    pub op: Option<FsOp>,
    pub read_set: Vec<String>,
    pub write_set: Vec<String>,
}

#[derive(Debug, PartialEq, Eq)]
pub struct Batch {
    pub batch_id: u64,
    pub txs: Vec<OrderedTx>,
}

#[derive(Clone, Copy, Debug, PartialEq, Eq, Structural)]
pub struct Inode {
    pub kind: i32,
    pub child_count: u64,
}

#[derive(Clone, Copy, Debug, PartialEq, Eq, Structural)]
pub struct Missing {}

#[derive(Debug, PartialEq, Eq)]
pub struct ReadEntry {
    pub key: String,
    pub value: Option<read_entry::Value>,
}

#[derive(Debug, PartialEq, Eq)]
pub struct WriteEntry {
    pub key: String,
    pub value: Option<write_entry::Value>,
}

#[derive(Debug, PartialEq, Eq)]
pub struct InodeEntry {
    pub key: String,
    pub inode: Option<Inode>,
}

#[derive(Clone, Copy, Debug, PartialEq, Eq, Structural)]
pub struct TxResultRecord {
    pub tx_id: u64,
    pub shard_id: u64,
    pub result: i32,
}

#[derive(Debug, PartialEq, Eq)]
pub struct SccReorderRecord {
    pub batch_id: u64,
    pub speculative_success_indices: Vec<u32>,
    pub fallback_indices: Vec<u32>,
}

} // verus!
