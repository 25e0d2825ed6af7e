//! Calls that turn values into messages and back.

use crate::collections::OrdMap;
use crate::convert::codes::{
    local_read_status_from_i32, local_read_status_to_i32, node_kind_from_i32, node_kind_to_i32,
    read_phase_from_i32, read_phase_to_i32, tx_result_from_i32, tx_result_to_i32,
};
use crate::convert::entries;
use crate::convert::entries::{
    inode_entries_from_proto, inode_entries_to_proto, inode_from_proto, inode_to_proto,
    read_entries_from_proto, read_entries_to_proto, read_entry_from_proto,
    write_entries_from_proto, write_entries_to_proto,
};
use crate::convert::records;
use crate::convert::records::{
    scc_reorder_record_from_proto, scc_reorder_record_to_proto, scc_reorder_records_from_proto,
    scc_reorder_records_to_proto, tx_result_record_from_proto, tx_result_record_to_proto,
    tx_result_records_from_proto, tx_result_records_to_proto,
};
use crate::convert::txs;
use crate::convert::txs::{
    batch_from_proto, batch_to_proto, fs_op_from_proto, fs_op_to_proto, ordered_tx_from_proto,
    ordered_tx_to_proto,
};
use crate::error::{Error, KeyField, ProtoFault, Result};
use crate::laws::messages;
use crate::model;
use crate::model::{
    Batch, FsOp, Inode, Key, LocalReadStatus, NodeKind, OrderedTx, ReadPhase, ReadValue,
    SccReorderRecord, TxResult, TxResultRecord, WriteOp,
};
use crate::path;
use crate::path::Path;
use crate::proto::pb;
use vstd::prelude::*;

verus! {

/// A number that is written is read back as what was written; nought and whatever else
/// stands for nothing is refused and named.
pub proof fn lemma_codes_call(
    result: TxResult,
    result_code: i32,
    phase: ReadPhase,
    phase_code: i32,
    status: LocalReadStatus,
    status_code: i32,
    kind: NodeKind,
    kind_code: i32,
    n: i32,
    result_read: Result<TxResult>,
    phase_read: Result<ReadPhase>,
    status_read: Result<LocalReadStatus>,
    kind_read: Result<NodeKind>,
)
    requires
        call_ensures(tx_result_to_i32, (result,), result_code),
        call_ensures(read_phase_to_i32, (phase,), phase_code),
        call_ensures(local_read_status_to_i32, (status,), status_code),
        call_ensures(node_kind_to_i32, (kind,), kind_code),
        call_ensures(tx_result_from_i32, (n,), result_read),
        call_ensures(read_phase_from_i32, (n,), phase_read),
        call_ensures(local_read_status_from_i32, (n,), status_read),
        call_ensures(node_kind_from_i32, (n,), kind_read),
    ensures
        1 <= result_code <= 6 && 1 <= phase_code <= 4 && 1 <= status_code <= 2 && 1 <= kind_code
            <= 2,
        result_code == n ==> result_read == Ok::<TxResult, Error>(result),
        phase_code == n ==> phase_read == Ok::<ReadPhase, Error>(phase),
        status_code == n ==> status_read == Ok::<LocalReadStatus, Error>(status),
        kind_code == n ==> kind_read == Ok::<NodeKind, Error>(kind),
        !(1 <= n <= 6) <==> result_read == Err::<TxResult, Error>(
            Error::InvalidProto(ProtoFault::InvalidTxResult(n)),
        ),
        !(1 <= n <= 4) <==> phase_read == Err::<ReadPhase, Error>(
            Error::InvalidProto(ProtoFault::InvalidReadPhase(n)),
        ),
        !(1 <= n <= 2) <==> status_read == Err::<LocalReadStatus, Error>(
            Error::InvalidProto(ProtoFault::InvalidLocalReadStatus(n)),
        ),
        !(1 <= n <= 2) <==> kind_read == Err::<NodeKind, Error>(
            Error::InvalidProto(ProtoFault::InvalidNodeKind(n)),
        ),
        result is Success <==> result_code == 1,
        result is NotFound <==> result_code == 2,
        result is AlreadyExists <==> result_code == 3,
        result is NotDirectory <==> result_code == 4,
        result is DirectoryNotEmpty <==> result_code == 5,
        result is Invalid <==> result_code == 6,
        phase is Calvin <==> phase_code == 1,
        phase is SccEffect <==> phase_code == 2,
        phase is SccCondition <==> phase_code == 3,
        phase is AriaFallback <==> phase_code == 4,
        status is Success <==> status_code == 1,
        kind is File <==> kind_code == 1,
{
}

/// An operation that is sent is of the same kind and names the same paths, and is read
/// back unchanged. What is read names the paths of the message, and is refused if and only
/// if something is missing or a path is not well formed.
pub proof fn lemma_op_call(
    op: &FsOp,
    message: pb::FsOp,
    back: Result<FsOp>,
    value: Option<pb::FsOp>,
    read: Result<FsOp>,
)
    requires
        call_ensures(fs_op_to_proto, (op,), message),
        call_ensures(fs_op_from_proto, (Some(message),), back),
        call_ensures(fs_op_from_proto, (value,), read),
    ensures
        message.op is Some,
        messages::paths_in(message.op->0) == messages::paths_of(op@),
        message.op->0 is Create <==> op@ is Create,
        message.op->0 is Mkdir <==> op@ is Mkdir,
        message.op->0 is Unlink <==> op@ is Unlink,
        message.op->0 is Rmdir <==> op@ is Rmdir,
        message.op->0 is Rename <==> op@ is Rename,
        message.op->0 is Stat <==> op@ is Stat,
        back matches Ok(b) && b@ == op@,
        read is Ok <==> value is Some && value->0.op is Some && forall|i: int|
            0 <= i < messages::paths_in(value->0.op->0).len() ==> path::valid_path(
                #[trigger] messages::paths_in(value->0.op->0)[i],
            ),
        read matches Ok(o) ==> messages::paths_of(o@) == messages::paths_in(value->0.op->0),
        read matches Ok(o) ==> (o@ is Create <==> value->0.op->0 is Create),
        read matches Ok(o) ==> (o@ is Mkdir <==> value->0.op->0 is Mkdir),
        read matches Ok(o) ==> (o@ is Unlink <==> value->0.op->0 is Unlink),
        read matches Ok(o) ==> (o@ is Rmdir <==> value->0.op->0 is Rmdir),
        read matches Ok(o) ==> (o@ is Rename <==> value->0.op->0 is Rename),
{
    let error = Error::InvalidProto(ProtoFault::MissingFsOp);
    messages::lemma_op_message(Some(message), error);
    messages::lemma_op_message(value, error);
}

/// A transaction that is sent is read back unchanged, and so is a batch.
pub proof fn lemma_batch_call(
    tx: &OrderedTx,
    tx_message: pb::OrderedTx,
    tx_back: Result<OrderedTx>,
    batch: &Batch,
    message: pb::Batch,
    back: Result<Batch>,
)
    requires
        call_ensures(ordered_tx_to_proto, (tx,), tx_message),
        call_ensures(ordered_tx_from_proto, (tx_message,), tx_back),
        call_ensures(batch_to_proto, (batch,), message),
        call_ensures(batch_from_proto, (message,), back),
    ensures
        tx_message.tx_id == tx@.tx_id,
        tx_message.batch_index == tx@.batch_index,
        tx_back matches Ok(b) && b@ == tx@,
        message.batch_id == batch@.batch_id,
        message.txs@.len() == batch@.txs.len(),
        back matches Ok(b) && b@ == batch@,
{
    txs::lemma_tx_round_trip(tx@, tx_message);
    txs::lemma_batch_round_trip(batch@, message);
}

/// A message of a transaction is taken if and only if all its keys are well formed, none
/// is twice in one set, and its operation is taken; a batch if and only if all its
/// transactions are. What is taken is what the message says.
pub proof fn lemma_read_batch_call(
    value: pb::OrderedTx,
    r: Result<OrderedTx>,
    op: Result<FsOp>,
    batch: pb::Batch,
    all: Result<Batch>,
    key: Path,
)
    requires
        call_ensures(ordered_tx_from_proto, (value,), r),
        call_ensures(fs_op_from_proto, (value.op,), op),
        call_ensures(batch_from_proto, (batch,), all),
    ensures
        r is Ok <==> op is Ok && txs::keys_parse(value.read_set@.map_values(|s: String| s@))
            && txs::keys_parse(value.write_set@.map_values(|s: String| s@)),
        r matches Ok(tx) ==> {
            &&& tx@.tx_id == value.tx_id && tx@.batch_index == value.batch_index
            &&& tx@.op == op->Ok_0@
            &&& tx@.read_set.contains(key) <==> exists|i: int|
                0 <= i < value.read_set@.len() && (#[trigger] value.read_set@[i])@ == key
            &&& tx@.write_set.contains(key) <==> exists|i: int|
                0 <= i < value.write_set@.len() && (#[trigger] value.write_set@[i])@ == key
        },
        all is Ok <==> forall|i: int|
            0 <= i < batch.txs@.len() ==> txs::tx_parses(#[trigger] batch.txs@[i]),
        all matches Ok(b) ==> b@.batch_id == batch.batch_id && b@.txs.len() == batch.txs@.len(),
{
    messages::lemma_tx_message(value, batch, key);
}

/// An inode that is sent is read back unchanged; one that is read is a file or a directory
/// as its message says, with its count, and is refused if it is neither or missing.
pub proof fn lemma_inode_call(
    inode: &Inode,
    message: pb::Inode,
    back: Result<Inode>,
    value: Option<pb::Inode>,
    r: Result<Inode>,
)
    requires
        call_ensures(inode_to_proto, (inode,), message),
        call_ensures(inode_from_proto, (Some(message),), back),
        call_ensures(inode_from_proto, (value,), r),
    ensures
        message.child_count == inode.child_count,
        message.kind == (if inode.kind == NodeKind::File {
            1i32
        } else {
            2i32
        }),
        back == Ok::<Inode, Error>(*inode),
        r is Ok <==> value is Some && (value->0.kind == 1 || value->0.kind == 2),
        r matches Ok(i) ==> i.child_count == value->0.child_count && (i.kind == NodeKind::File
            <==> value->0.kind == 1),
{
}

/// Reads that are sent are read back unchanged, and so are inodes and writes.
pub proof fn lemma_entries_call(
    reads: &OrdMap<Key, ReadValue>,
    sent_reads: Vec<pb::ReadEntry>,
    reads_back: Result<OrdMap<Key, ReadValue>>,
    inodes: &OrdMap<Key, Inode>,
    sent_inodes: Vec<pb::InodeEntry>,
    inodes_back: Result<OrdMap<Key, Inode>>,
    writes: &Vec<WriteOp>,
    sent_writes: Vec<pb::WriteEntry>,
    writes_back: Result<Vec<WriteOp>>,
)
    requires
        call_ensures(read_entries_to_proto, (reads,), sent_reads),
        call_ensures(read_entries_from_proto, (sent_reads,), reads_back),
        call_ensures(inode_entries_to_proto, (inodes,), sent_inodes),
        call_ensures(inode_entries_from_proto, (sent_inodes,), inodes_back),
        call_ensures(write_entries_to_proto, (writes,), sent_writes),
        call_ensures(write_entries_from_proto, (sent_writes,), writes_back),
    ensures
        reads_back matches Ok(b) && b@ == reads@,
        inodes_back matches Ok(b) && b@ == inodes@,
        writes_back matches Ok(b) && model::write_views(b@) == model::write_views(writes@),
{
    entries::lemma_reads_round_trip(reads@, sent_reads@);
    entries::lemma_inodes_round_trip(inodes@, sent_inodes@);
    entries::lemma_writes_round_trip(model::write_views(writes@), sent_writes@);
}

/// A list of reads is taken if and only if every key is well formed and in it once, and
/// something is said of each; then each key is bound to what is said of it.
pub proof fn lemma_read_entries_call(
    list: Vec<pb::ReadEntry>,
    r: Result<OrdMap<Key, ReadValue>>,
    i: int,
)
    requires
        call_ensures(read_entries_from_proto, (list,), r),
        0 <= i < list@.len(),
    ensures
        r is Ok <==> (forall|j: int|
            0 <= j < list@.len() ==> entries::read_parses(#[trigger] list@[j])) && forall|
            j: int,
            k: int,
        |
            0 <= j < k < list@.len() ==> (#[trigger] list@[j]).key@ != (#[trigger] list@[k]).key@,
        r matches Ok(reads) ==> reads@.contains_key(list@[i].key@) && match list@[i].value {
            Some(pb::read_entry::Value::Inode(m)) => {
                &&& reads@[list@[i].key@] matches ReadValue::Present(inode)
                &&& inode.child_count == m.child_count
                &&& inode.kind == NodeKind::File <==> m.kind == 1
            },
            Some(pb::read_entry::Value::Missing(_)) => reads@[list@[i].key@] == ReadValue::Missing,
            None => false,
        },
{
    messages::lemma_reads_message(list@, list@[i].key@);
    if r is Ok {
        assert(entries::read_parses(list@[i]));
        assert(entries::reads_in(list@)[list@[i].key@] == entries::read_value_in(list@[i]));
    }
}

/// A single read is taken if and only if it is there, its key is well formed and something
/// is said of it.
pub proof fn lemma_read_entry_call(entry: Option<pb::ReadEntry>, r: Result<(Key, ReadValue)>)
    requires
        call_ensures(read_entry_from_proto, (entry,), r),
    ensures
        r is Ok <==> entry is Some && path::valid_path(entry->0.key@) && match entry->0.value {
            Some(pb::read_entry::Value::Inode(m)) => m.kind == 1 || m.kind == 2,
            Some(pb::read_entry::Value::Missing(_)) => true,
            None => false,
        },
        r matches Ok(read) ==> read.0@ == entry->0.key@ && (read.1 == ReadValue::Missing <==> !(
        entry->0.value matches Some(pb::read_entry::Value::Inode(_)))),
        entry is None ==> r == Err::<(Key, ReadValue), Error>(
            Error::InvalidProto(ProtoFault::MissingReadEntry),
        ),
{
}

/// Inodes are taken if and only if every key is well formed and there once and every inode
/// is taken; then each key is bound to its inode.
pub proof fn lemma_inode_entries_call(
    list: Vec<pb::InodeEntry>,
    r: Result<OrdMap<Key, Inode>>,
    i: int,
)
    requires
        call_ensures(inode_entries_from_proto, (list,), r),
        0 <= i < list@.len(),
    ensures
        r is Ok <==> (forall|j: int|
            0 <= j < list@.len() ==> path::valid_path((#[trigger] list@[j]).key@)
                && list@[j].inode is Some && 1 <= list@[j].inode->0.kind <= 2) && forall|
            j: int,
            k: int,
        |
            0 <= j < k < list@.len() ==> (#[trigger] list@[j]).key@ != (#[trigger] list@[k]).key@,
        r matches Ok(inodes) ==> {
            let key = list@[i].key@;
            &&& inodes@.contains_key(key)
            &&& inodes@[key].child_count == list@[i].inode->0.child_count
            &&& inodes@[key].kind == NodeKind::File <==> list@[i].inode->0.kind == 1
        },
{
    messages::lemma_inodes_message(list@, list@[i].key@);
    if forall|j: int|
        0 <= j < list@.len() ==> path::valid_path((#[trigger] list@[j]).key@)
            && list@[j].inode is Some && 1 <= list@[j].inode->0.kind <= 2 {
        assert forall|j: int| 0 <= j < list@.len() implies path::valid_path(
            (#[trigger] list@[j]).key@,
        ) && entries::inode_parses(list@[j].inode) by {
            assert(path::valid_path(list@[j].key@));
        }
    }
    if r is Ok {
        assert forall|j: int| 0 <= j < list@.len() implies path::valid_path(
            (#[trigger] list@[j]).key@,
        ) && list@[j].inode is Some && 1 <= list@[j].inode->0.kind <= 2 by {
            assert(entries::inode_parses(list@[j].inode));
        }
        assert(entries::inodes_in(list@)[list@[i].key@] == entries::inode_of(
            list@[i].inode->0,
        ));
    }
}

/// Results that are sent are read back unchanged, in their order; a list is refused if and
/// only if one of its results stands for none.
pub proof fn lemma_results_call(
    values: &Vec<TxResultRecord>,
    sent: Vec<pb::TxResultRecord>,
    back: Result<Vec<TxResultRecord>>,
    list: Vec<pb::TxResultRecord>,
    r: Result<Vec<TxResultRecord>>,
    i: int,
)
    requires
        call_ensures(tx_result_records_to_proto, (values,), sent),
        call_ensures(tx_result_records_from_proto, (sent,), back),
        call_ensures(tx_result_records_from_proto, (list,), r),
        0 <= i < values@.len(),
    ensures
        sent@.len() == values@.len(),
        sent@[i].tx_id == values@[i].tx_id,
        sent@[i].shard_id == values@[i].shard_id,
        back matches Ok(b) && b@ == values@,
        r is Ok <==> forall|j: int|
            0 <= j < list@.len() ==> 1 <= (#[trigger] list@[j]).result <= 6,
{
    records::lemma_records_accepted(values@, Error::InvalidProto(ProtoFault::MissingFsOp));
    if let Ok(b) = back {
        records::lemma_records_round_trip(values@, b@);
    } else {
        records::lemma_records_accepted(values@, back->Err_0);
    }
    if let Ok(b) = r {
        assert forall|j: int| 0 <= j < list@.len() implies 1 <= (#[trigger] list@[j]).result
            <= 6 by {
            let f = |v: TxResultRecord| records::record_message(v);
            assert(b@.map_values(f)[j] == records::record_message(b@[j]));
        }
    }
}

/// One result that is sent is read back unchanged.
pub proof fn lemma_result_call(
    value: &TxResultRecord,
    sent: pb::TxResultRecord,
    back: Result<TxResultRecord>,
)
    requires
        call_ensures(tx_result_record_to_proto, (value,), sent),
        call_ensures(tx_result_record_from_proto, (sent,), back),
    ensures
        sent.tx_id == value.tx_id,
        sent.shard_id == value.shard_id,
        back == Ok::<TxResultRecord, Error>(*value),
{
}

/// An order that is sent is read back unchanged where its places fit into a message; the
/// places that went first come out as those that went first.
pub proof fn lemma_order_call(
    value: &SccReorderRecord,
    sent: pb::SccReorderRecord,
    back: SccReorderRecord,
    i: int,
)
    requires
        call_ensures(scc_reorder_record_to_proto, (value,), sent),
        call_ensures(scc_reorder_record_from_proto, (sent,), back),
        forall|j: int|
            0 <= j < value@.successes.len() ==> #[trigger] value@.successes[j] <= u32::MAX,
        forall|j: int|
            0 <= j < value@.fallbacks.len() ==> #[trigger] value@.fallbacks[j] <= u32::MAX,
    ensures
        back@ == value@,
        sent.batch_id == value@.batch_id,
        0 <= i < value@.successes.len() ==> sent.speculative_success_indices@[i]
            == value@.successes[i],
        0 <= i < value@.fallbacks.len() ==> sent.fallback_indices@[i] == value@.fallbacks[i],
{
    records::lemma_reorder_round_trip(value@, sent);
}

/// A list of orders is sent and read back one by one, in their order.
pub proof fn lemma_orders_call(
    values: &Vec<SccReorderRecord>,
    sent: Vec<pb::SccReorderRecord>,
    back: Vec<SccReorderRecord>,
    i: int,
)
    requires
        call_ensures(scc_reorder_records_to_proto, (values,), sent),
        call_ensures(scc_reorder_records_from_proto, (sent,), back),
        0 <= i < values@.len(),
        forall|j: int|
            0 <= j < values@[i]@.successes.len() ==> #[trigger] values@[i]@.successes[j]
                <= u32::MAX,
        forall|j: int|
            0 <= j < values@[i]@.fallbacks.len() ==> #[trigger] values@[i]@.fallbacks[j]
                <= u32::MAX,
    ensures
        back@.len() == values@.len(),
        back@[i]@ == values@[i]@,
{
    records::lemma_reorder_round_trip(values@[i]@, sent@[i]);
}

/// Why a list of reads, or of inodes, is not taken: some path in it is not valid, some
/// message in it says nothing, or a key occurs twice; the error names which.
pub proof fn lemma_entries_refused_call(
    reads: Vec<pb::ReadEntry>,
    found: Result<OrdMap<Key, ReadValue>>,
    inodes: Vec<pb::InodeEntry>,
    stored: Result<OrdMap<Key, Inode>>,
    writes: Vec<pb::WriteEntry>,
    made: Result<Vec<WriteOp>>,
)
    requires
        call_ensures(read_entries_from_proto, (reads,), found),
        call_ensures(inode_entries_from_proto, (inodes,), stored),
        call_ensures(write_entries_from_proto, (writes,), made),
    ensures
        found matches Err(Error::InvalidProto(ProtoFault::DuplicateReadKey { key })) ==> exists|
            i: int,
            j: int,
        |
            0 <= i < j < reads@.len() && (#[trigger] reads@[i]).key@ == key@ && (
            #[trigger] reads@[j]).key@ == key@,
        found matches Err(Error::InvalidPath(text)) ==> !path::valid_path(text@) && exists|i: int|
            0 <= i < reads@.len() && (#[trigger] reads@[i]).key@ == text@,
        stored matches Err(Error::InvalidProto(ProtoFault::DuplicateInodeKey { key })) ==> exists|
            i: int,
            j: int,
        |
            0 <= i < j < inodes@.len() && (#[trigger] inodes@[i]).key@ == key@ && (
            #[trigger] inodes@[j]).key@ == key@,
        stored matches Err(Error::InvalidPath(text)) ==> !path::valid_path(text@) && exists|i: int|
            0 <= i < inodes@.len() && (#[trigger] inodes@[i]).key@ == text@,
        stored == Err::<OrdMap<Key, Inode>, Error>(Error::InvalidProto(ProtoFault::MissingInode))
            ==> exists|i: int| 0 <= i < inodes@.len() && (#[trigger] inodes@[i]).inode is None,
        made matches Err(Error::InvalidPath(text)) ==> !path::valid_path(text@) && exists|i: int|
            0 <= i < writes@.len() && (#[trigger] writes@[i]).key@ == text@,
        made == Err::<Vec<WriteOp>, Error>(Error::InvalidProto(ProtoFault::MissingWriteValue))
            ==> exists|i: int| 0 <= i < writes@.len() && (#[trigger] writes@[i]).value is None,
{
    if let Err(error) = found {
        let n = choose|n: int| #[trigger] entries::reads_stop(reads@, n, error);
        messages::lemma_read_message(reads@[n], error);
        if let Error::InvalidProto(ProtoFault::DuplicateReadKey { key }) = error {
            let before = entries::read_keys_in(reads@.take(n));
            let i = choose|i: int| 0 <= i < before.len() && before[i] == reads@[n].key@;
            assert(reads@.take(n)[i] == reads@[i]);
            assert(reads@[i].key@ == key@ && reads@[n].key@ == key@);
        }
    }
    if let Err(error) = stored {
        let n = choose|n: int| #[trigger] entries::inodes_stop(inodes@, n, error);
        messages::lemma_inode_message(
            inodes@[n].inode,
            Inode { kind: NodeKind::File, child_count: 0 },
            error,
        );
        if let Error::InvalidProto(ProtoFault::DuplicateInodeKey { key }) = error {
            let before = entries::inode_keys_in(inodes@.take(n));
            let i = choose|i: int| 0 <= i < before.len() && before[i] == inodes@[n].key@;
            assert(inodes@.take(n)[i] == inodes@[i]);
            assert(inodes@[i].key@ == key@ && inodes@[n].key@ == key@);
        }
    }
    if let Err(error) = made {
        let n = choose|n: int| #[trigger] entries::writes_stop(writes@, n, error);
        assert(entries::write_fault(writes@[n], error));
    }
}

/// Why a message of a transaction is not taken: its set of reads is looked at first, then
/// its set of writes, then its operation; a key that occurs twice is named with the set.
pub proof fn lemma_tx_refused_call(value: pb::OrderedTx, r: Result<OrderedTx>, op: Result<FsOp>)
    requires
        call_ensures(ordered_tx_from_proto, (value,), r),
        call_ensures(fs_op_from_proto, (value.op,), op),
    ensures
        ({
            let reads = value.read_set@.map_values(|s: String| s@);
            let writes = value.write_set@.map_values(|s: String| s@);
            r matches Err(error) ==> match error {
                Error::InvalidProto(ProtoFault::DuplicateKey { key, field }) => {
                    &&& field == KeyField::ReadSet || field == KeyField::WriteSet
                    &&& field == KeyField::ReadSet ==> !reads.no_duplicates()
                    &&& field == KeyField::WriteSet ==> !writes.no_duplicates()
                        && txs::keys_parse(reads)
                },
                Error::InvalidPath(text) => {
                    &&& !path::valid_path(text@)
                    &&& reads.contains(text@) || writes.contains(text@) && txs::keys_parse(reads)
                        || op is Err
                },
                _ => op is Err && txs::keys_parse(reads) && txs::keys_parse(writes),
            }
        }),
{
    let reads = value.read_set@.map_values(|s: String| s@);
    let writes = value.write_set@.map_values(|s: String| s@);
    assert(reads =~= txs::texts(value.read_set@));
    assert(writes =~= txs::texts(value.write_set@));
    if let Err(error) = r {
        messages::lemma_keys_message(reads, KeyField::ReadSet, error);
        messages::lemma_keys_message(writes, KeyField::WriteSet, error);
        messages::lemma_op_message(value.op, error);
    }
}

} // verus!
