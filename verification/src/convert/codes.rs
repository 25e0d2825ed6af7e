//! The numbers that stand for variants.

use crate::error::{Error, ProtoFault, Result};
use crate::model::{LocalReadStatus, NodeKind, ReadPhase, TxResult};
use vstd::prelude::*;

verus! {

pub open spec fn tx_result_code(value: TxResult) -> i32 {
    match value {
        TxResult::Success => 1,
        TxResult::NotFound => 2,
        TxResult::AlreadyExists => 3,
        TxResult::NotDirectory => 4,
        TxResult::DirectoryNotEmpty => 5,
        TxResult::Invalid => 6,
    }
}

pub fn tx_result_to_i32(value: TxResult) -> (r: i32)
    ensures
        r == tx_result_code(value),
{
    match value {
        TxResult::Success => 1,
        TxResult::NotFound => 2,
        TxResult::AlreadyExists => 3,
        TxResult::NotDirectory => 4,
        TxResult::DirectoryNotEmpty => 5,
        TxResult::Invalid => 6,
    }
}

/// Reads a result back; a number that stands for none is refused.
pub fn tx_result_from_i32(value: i32) -> (r: Result<TxResult>)
    ensures
        match r {
            Ok(result) => tx_result_code(result) == value,
            Err(error) => !(1 <= value <= 6) && error == Error::InvalidProto(
                ProtoFault::InvalidTxResult(value),
            ),
        },
{
    match value {
        1 => Ok(TxResult::Success),
        2 => Ok(TxResult::NotFound),
        3 => Ok(TxResult::AlreadyExists),
        4 => Ok(TxResult::NotDirectory),
        5 => Ok(TxResult::DirectoryNotEmpty),
        6 => Ok(TxResult::Invalid),
        _ => Err(Error::InvalidProto(ProtoFault::InvalidTxResult(value))),
    }
}

pub open spec fn read_phase_code(value: ReadPhase) -> i32 {
    match value {
        ReadPhase::Calvin => 1,
        ReadPhase::SccEffect => 2,
        ReadPhase::SccCondition => 3,
        ReadPhase::AriaFallback => 4,
    }
}

pub fn read_phase_to_i32(value: ReadPhase) -> (r: i32)
    ensures
        r == read_phase_code(value),
{
    match value {
        ReadPhase::Calvin => 1,
        ReadPhase::SccEffect => 2,
        ReadPhase::SccCondition => 3,
        ReadPhase::AriaFallback => 4,
    }
}

/// Reads a phase back; a number that stands for none is refused.
pub fn read_phase_from_i32(value: i32) -> (r: Result<ReadPhase>)
    ensures
        match r {
            Ok(phase) => read_phase_code(phase) == value,
            Err(error) => !(1 <= value <= 4) && error == Error::InvalidProto(
                ProtoFault::InvalidReadPhase(value),
            ),
        },
{
    match value {
        1 => Ok(ReadPhase::Calvin),
        2 => Ok(ReadPhase::SccEffect),
        3 => Ok(ReadPhase::SccCondition),
        4 => Ok(ReadPhase::AriaFallback),
        _ => Err(Error::InvalidProto(ProtoFault::InvalidReadPhase(value))),
    }
}

pub open spec fn local_read_status_code(value: LocalReadStatus) -> i32 {
    match value {
        LocalReadStatus::Success => 1,
        LocalReadStatus::SpeculationFailed => 2,
    }
}

pub fn local_read_status_to_i32(value: LocalReadStatus) -> (r: i32)
    ensures
        r == local_read_status_code(value),
{
    match value {
        LocalReadStatus::Success => 1,
        LocalReadStatus::SpeculationFailed => 2,
    }
}

/// Reads a status back; a number that stands for none is refused.
pub fn local_read_status_from_i32(value: i32) -> (r: Result<LocalReadStatus>)
    ensures
        match r {
            Ok(status) => local_read_status_code(status) == value,
            Err(error) => !(1 <= value <= 2) && error == Error::InvalidProto(
                ProtoFault::InvalidLocalReadStatus(value),
            ),
        },
{
    match value {
        1 => Ok(LocalReadStatus::Success),
        2 => Ok(LocalReadStatus::SpeculationFailed),
        _ => Err(Error::InvalidProto(ProtoFault::InvalidLocalReadStatus(value))),
    }
}

pub open spec fn node_kind_code(value: NodeKind) -> i32 {
    match value {
        NodeKind::File => 1,
        NodeKind::Directory => 2,
    }
}

pub fn node_kind_to_i32(value: NodeKind) -> (r: i32)
    ensures
        r == node_kind_code(value),
{
    match value {
        NodeKind::File => 1,
        NodeKind::Directory => 2,
    }
}

/// Reads a kind back; a number that stands for none is refused.
pub fn node_kind_from_i32(value: i32) -> (r: Result<NodeKind>)
    ensures
        match r {
            Ok(kind) => node_kind_code(kind) == value,
            Err(error) => !(1 <= value <= 2) && error == Error::InvalidProto(
                ProtoFault::InvalidNodeKind(value),
            ),
        },
{
    match value {
        1 => Ok(NodeKind::File),
        2 => Ok(NodeKind::Directory),
        _ => Err(Error::InvalidProto(ProtoFault::InvalidNodeKind(value))),
    }
}

/// Different variants have different numbers, so a number that was written is read back
/// as what was written.
pub proof fn lemma_codes_distinct(
    a: TxResult,
    b: TxResult,
    p: ReadPhase,
    q: ReadPhase,
    s: LocalReadStatus,
    t: LocalReadStatus,
    j: NodeKind,
    k: NodeKind,
)
    ensures
        tx_result_code(a) == tx_result_code(b) ==> a == b,
        1 <= tx_result_code(a) <= 6,
        read_phase_code(p) == read_phase_code(q) ==> p == q,
        1 <= read_phase_code(p) <= 4,
        local_read_status_code(s) == local_read_status_code(t) ==> s == t,
        1 <= local_read_status_code(s) <= 2,
        node_kind_code(j) == node_kind_code(k) ==> j == k,
        1 <= node_kind_code(j) <= 2,
{
}

} // verus!
