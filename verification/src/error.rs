//! What can go wrong.

use crate::collections::{OrdMap, OrdSet};
use crate::model::{
    BatchId, Inode, Key, LocalReadStatus, ReadPhase, ShardId, TxId, TxResult,
};
use crate::scc::tables::PathId;
use vstd::prelude::*;

verus! {

pub type Result<T> = std::result::Result<T, Error>;

/// Why a batch or a transaction is not accepted.
#[derive(Debug)]
pub enum BatchFault {
    ReadSetMismatch { tx_id: TxId, expected: OrdSet<Key>, found: OrdSet<Key> },
    WriteSetMismatch { tx_id: TxId, expected: OrdSet<Key>, found: OrdSet<Key> },
    MissingReadValue(Key),
    OutOfOrder { tx_id: TxId, batch_index: u32, expected: usize },
    DuplicateTx { tx_id: TxId, batch_id: BatchId },
    UnexpectedWrite { tx_id: TxId, key: Key },
    SlotBackToPending { index: usize },
    SlotAlreadySet { index: usize },
    SlotOutOfRange { index: usize, len: usize },
    DagVertexOutOfRange { index: usize },
    DagVertexFinished { index: usize },
    DeltaOfFailure { tx_id: TxId, result: TxResult },
    MissingDeltaRead,
    OutsideWriteSet { tx_id: TxId, key: Key },
    CountDeltaOutOfRange { key: Key },
    CountDeltaOnMissing { key: Key },
    CountDeltaOnFile { key: Key },
    CountDeltaUnderflow { key: Key },
    MissingLocalWrites { index: usize },
    SlotStillPending { index: usize },
    SlotFailedUnlisted { index: usize },
    FailedOutsideBatch { failed: OrdSet<usize>, len: usize },
    DuplicateBatchReorder { batch_id: BatchId },
    MissingBaseRead { key: Key },
    ReadMisrouted {
        tx_id: TxId,
        phase: ReadPhase,
        batch_id: BatchId,
        got_batch: BatchId,
        got_tx: TxId,
        got_phase: ReadPhase,
    },
    ReadNotServed { tx_id: TxId, phase: ReadPhase, from_shard: ShardId, status: LocalReadStatus },
    ReadUnexpected { tx_id: TxId, phase: ReadPhase, from_shard: ShardId },
    ReadTwice { tx_id: TxId, phase: ReadPhase, from_shard: ShardId },
    ReadKeysMismatch {
        tx_id: TxId,
        phase: ReadPhase,
        from_shard: ShardId,
        expected: OrdSet<Key>,
        found: OrdSet<Key>,
    },
    ReadKeyTwice { tx_id: TxId, phase: ReadPhase, key: Key },
    FullReadsMismatch {
        tx_id: TxId,
        phase: ReadPhase,
        expected: OrdSet<Key>,
        found: OrdSet<Key>,
    },
    AriaReadTwice { tx_id: TxId, key: Key },
    AriaReadMismatch { tx_id: TxId, key: Key, found: Key },
    AriaReadMisrouted { key: Key, shard_id: ShardId, owner: ShardId },
    AriaStageSender { tx_id: TxId, from_shard: ShardId, expected: ShardId },
    AriaStageFlag { tx_id: TxId, is_result_shard: bool, expected: bool, shard_id: ShardId },
    AriaWriteMisrouted { key: Key, shard_id: ShardId, owner: ShardId },
    AriaStagedTwice { batch_id: BatchId, tx_index: usize, shard_id: ShardId },
    AriaReportShard { batch_id: BatchId, from_shard: ShardId, shard_count: u64 },
    AriaDoneTwice { batch_id: BatchId, from_shard: ShardId },
    AriaFailuresTwice { batch_id: BatchId, from_shard: ShardId },
    AriaNoResult { tx_id: TxId },
    AriaDisagreement { tx_id: TxId, first: TxResult, second: TxResult },
    NoBatchSize,
    MailboxTaken { batch_id: BatchId, tx_id: TxId, phase: ReadPhase },
}

/// Why a speculative execution cannot stand.
#[derive(Debug)]
pub enum SpeculationFault {
    /// A read met the failed slot with this index.
    FailedSlot { index: usize },
    RemoteFailure { tx_id: TxId, phase: ReadPhase, from_shard: ShardId },
    OffPath { tx_id: TxId, result: TxResult, predicted: PathId },
    ConditionFailed { tx_id: TxId },
}

/// Which set of keys of a transaction.
#[derive(Clone, Copy, Debug, PartialEq, Eq, Structural)]
pub enum KeyField {
    ReadSet,
    WriteSet,
}

/// Why a message does not hold what it should.
#[derive(Debug)]
pub enum ProtoFault {
    MissingFsOp,
    MissingFsOpKind,
    MissingInode,
    MissingReadEntry,
    MissingReadValue,
    MissingWriteValue,
    DuplicateReadKey { key: Key },
    DuplicateInodeKey { key: Key },
    DuplicateKey { key: Key, field: KeyField },
    InvalidTxResult(i32),
    InvalidReadPhase(i32),
    InvalidLocalReadStatus(i32),
    InvalidNodeKind(i32),
}

/// How the order of locks was broken.
#[derive(Debug)]
pub enum LockFault {
    MissingQueue { key: Key },
    NotHead { tx_id: TxId, key: Key, head: TxId },
    UnexpectedGrant { tx_id: TxId, key: Key },
    DuplicateGrant { tx_id: TxId, key: Key },
}

/// What a check of a finished run found wrong.
#[derive(Debug)]
pub enum CheckerFault {
    ReorderBatchMismatch { record: BatchId, batch: BatchId },
    ReorderOutOfRange { batch_id: BatchId, index: usize, len: usize },
    ReorderDuplicate { batch_id: BatchId, index: usize },
    ReorderIncomplete { batch_id: BatchId, len: usize, seen: OrdSet<usize> },
    MissingReorder { batch_id: BatchId },
    DuplicateBatch { batch_id: BatchId },
    UnknownBatch { shard_id: ShardId, batch_id: BatchId },
    DuplicateReorder { shard_id: ShardId },
    ReorderBatchesMismatch {
        shard_id: ShardId,
        expected: OrdSet<BatchId>,
        found: OrdSet<BatchId>,
    },
    KeyOnWrongShard { key: Key, shard_id: ShardId, owner: ShardId },
    KeyOnTwoShards { key: Key },
    StateMismatch { expected: OrdMap<Key, Inode>, actual: OrdMap<Key, Inode> },
    DuplicateResult { tx_id: TxId, shard_id: ShardId },
    MissingResults { tx_id: TxId },
    ResultShardsMismatch { tx_id: TxId, expected: OrdSet<ShardId>, found: OrdSet<ShardId> },
    ResultDisagreement { tx_id: TxId, results: OrdMap<ShardId, TxResult> },
}

#[derive(Debug)]
pub enum Error {
    InvalidPath(String),
    InvalidProto(ProtoFault),
    InvalidBatch(BatchFault),
    BatchTooLarge { size: usize, max: usize },
    RedbDatabase(redb::DatabaseError),
    RedbTable(redb::TableError),
    RedbTransaction(redb::TransactionError),
    RedbCommit(redb::CommitError),
    RedbStorage(redb::StorageError),
    Bincode(Box<bincode::ErrorKind>),
    /// A stored inode is of a kind that there is not.
    UnknownKind { kind: u32 },
    /// The mailbox of a worker is closed: the worker has ended, or its batch is over.
    ChannelClosed { batch_id: BatchId, tx_id: TxId, phase: ReadPhase },
    LockInvariant(LockFault),
    SpeculationFailed(SpeculationFault),
    MissingPeer(ShardId),
    MissingBatch(BatchId),
    MissingTx(TxId),
    Checker(CheckerFault),
}

impl Error {
    /// The one who asked is to blame.
    pub open spec fn blames_caller(self) -> bool {
        self is InvalidPath || self is InvalidProto || self is InvalidBatch || self is BatchTooLarge
    }

    /// Whether the one who asked is to blame, and not this node.
    pub fn is_invalid_argument(&self) -> (r: bool)
        ensures
            r == self.blames_caller(),
    {
        matches!(
            self,
            Error::InvalidPath(_) | Error::InvalidProto(_) | Error::InvalidBatch(_)
                | Error::BatchTooLarge { .. }
        )
    }
}

} // verus!
