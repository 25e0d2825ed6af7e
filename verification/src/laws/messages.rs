//! What messages stand for, and which are refused.

use crate::convert::codes;
use crate::convert::entries;
use crate::convert::records;
use crate::convert::txs;
use crate::error::{Error, KeyField, ProtoFault};
use crate::model::{
    FsOpView, Inode, LocalReadStatus, NodeKind, ReadPhase, ReadValue, TxResult, TxResultRecord,
    WriteOpView,
};
use crate::path;
use crate::path::Path;
use crate::proto::pb;
use vstd::prelude::*;

verus! {

/// The numbers of the variants: they count from one, in the order in which the messages
/// list them, so that nought stands for none.
pub proof fn lemma_codes()
    ensures
        codes::tx_result_code(TxResult::Success) == 1,
        codes::tx_result_code(TxResult::NotFound) == 2,
        codes::tx_result_code(TxResult::AlreadyExists) == 3,
        codes::tx_result_code(TxResult::NotDirectory) == 4,
        codes::tx_result_code(TxResult::DirectoryNotEmpty) == 5,
        codes::tx_result_code(TxResult::Invalid) == 6,
        codes::read_phase_code(ReadPhase::Calvin) == 1,
        codes::read_phase_code(ReadPhase::SccEffect) == 2,
        codes::read_phase_code(ReadPhase::SccCondition) == 3,
        codes::read_phase_code(ReadPhase::AriaFallback) == 4,
        codes::local_read_status_code(LocalReadStatus::Success) == 1,
        codes::local_read_status_code(LocalReadStatus::SpeculationFailed) == 2,
        codes::node_kind_code(NodeKind::File) == 1,
        codes::node_kind_code(NodeKind::Directory) == 2,
{
}

/// The paths that a message of an operation names, in its order.
pub open spec fn paths_in(op: pb::fs_op::Op) -> Seq<Path> {
    match op {
        pb::fs_op::Op::Create(m) => seq![m.path@],
        pb::fs_op::Op::Mkdir(m) => seq![m.path@],
        pb::fs_op::Op::Unlink(m) => seq![m.path@],
        pb::fs_op::Op::Rmdir(m) => seq![m.path@],
        pb::fs_op::Op::Rename(m) => seq![m.src@, m.dst@],
        pb::fs_op::Op::Stat(m) => seq![m.path@],
    }
}

/// The paths of an operation, the source of a rename first.
pub open spec fn paths_of(op: FsOpView) -> Seq<Path> {
    match op {
        FsOpView::Create { path } => seq![path],
        FsOpView::Mkdir { path } => seq![path],
        FsOpView::Unlink { path } => seq![path],
        FsOpView::Rmdir { path } => seq![path],
        FsOpView::Rename { src, dst } => seq![src, dst],
        FsOpView::Stat { path } => seq![path],
    }
}

/// A message of an operation stands for the operation of the same kind on the same paths.
/// It is taken if and only if there is an operation in it whose paths are all well formed;
/// if it is not, the error names what is missing, or the first path that is not well
/// formed.
pub proof fn lemma_op_message(value: Option<pb::FsOp>, error: Error)
    ensures
        value matches Some(m) ==> m.op matches Some(op) ==> {
            &&& paths_of(txs::op_in(op)) == paths_in(op)
            &&& (op is Create <==> txs::op_in(op) is Create)
            &&& (op is Mkdir <==> txs::op_in(op) is Mkdir)
            &&& (op is Unlink <==> txs::op_in(op) is Unlink)
            &&& (op is Rmdir <==> txs::op_in(op) is Rmdir)
            &&& (op is Rename <==> txs::op_in(op) is Rename)
            &&& (op is Stat <==> txs::op_in(op) is Stat)
        },
        txs::op_parses(value) <==> value is Some && value->0.op is Some && forall|i: int|
            0 <= i < paths_in(value->0.op->0).len() ==> path::valid_path(
                #[trigger] paths_in(value->0.op->0)[i],
            ),
        txs::op_fault(value, error) ==> match error {
            Error::InvalidProto(ProtoFault::MissingFsOp) => value is None,
            Error::InvalidProto(ProtoFault::MissingFsOpKind) => value is Some
                && value->0.op is None,
            Error::InvalidPath(text) => {
                &&& value is Some && value->0.op is Some
                &&& exists|i: int|
                    0 <= i < paths_in(value->0.op->0).len() && text@ == #[trigger] paths_in(
                        value->0.op->0,
                    )[i] && !path::valid_path(text@) && forall|j: int|
                        0 <= j < i ==> path::valid_path(#[trigger] paths_in(value->0.op->0)[j])
            },
            _ => false,
        },
{
    if value is Some && value->0.op is Some {
        let op = value->0.op->0;
        let ps = paths_in(op);
        assert(path::valid_path(ps[0]) || !path::valid_path(ps[0]));
        if op is Rename {
            assert(path::valid_path(ps[1]) || !path::valid_path(ps[1]));
        }
        assert(paths_of(txs::op_in(op)) =~= ps);
        if txs::op_parses(value) {
            assert forall|i: int| 0 <= i < ps.len() implies path::valid_path(#[trigger] ps[i]) by {
                if op is Rename {
                    assert(i == 0 || i == 1);
                } else {
                    assert(i == 0);
                }
            }
        }
        if txs::op_fault(value, error) && error is InvalidPath {
            let i: int = if op is Rename && path::valid_path(ps[0]) {
                1
            } else {
                0
            };
            assert(error->InvalidPath_0@ == ps[i]);
        }
    }
}

/// A list of keys is taken if and only if all of them are well formed and none occurs
/// twice. If it is not, the error names one that is not well formed, or one that occurs
/// twice and the list.
pub proof fn lemma_keys_message(values: Seq<Path>, field: KeyField, error: Error)
    ensures
        txs::keys_parse(values) <==> (forall|i: int|
            0 <= i < values.len() ==> path::valid_path(#[trigger] values[i])) && forall|
            i: int,
            j: int,
        |
            0 <= i < j < values.len() ==> #[trigger] values[i] != #[trigger] values[j],
        txs::keys_fault(values, field, error) ==> !txs::keys_parse(values) && match error {
            Error::InvalidPath(text) => values.contains(text@) && !path::valid_path(text@),
            Error::InvalidProto(ProtoFault::DuplicateKey { key, field: f }) => {
                &&& f == field
                &&& exists|i: int, j: int|
                    0 <= i < j < values.len() && #[trigger] values[i] == key@
                        && #[trigger] values[j] == key@
            },
            _ => false,
        },
{
    if txs::keys_fault(values, field, error) {
        let n = choose|n: int| #[trigger] txs::keys_stop(values, field, n, error);
        assert(values.contains(values[n]));
        if error is InvalidProto {
            let front = values.take(n);
            let m = choose|m: int| 0 <= m < front.len() && front[m] == values[n];
            assert(values[m] == values[n]);
        }
    }
    if forall|i: int, j: int|
        0 <= i < j < values.len() ==> #[trigger] values[i] != #[trigger] values[j] {
        assert forall|i: int, j: int|
            0 <= i < values.len() && 0 <= j < values.len() && i != j implies values[i]
            != values[j] by {
            if i < j {
                assert(values[i] != values[j]);
            } else {
                assert(values[j] != values[i]);
            }
        }
    }
}

/// A transaction is taken if and only if both its lists of keys and its operation are, and
/// a batch if and only if all its transactions are. What is taken is what the message
/// says, in its order.
pub proof fn lemma_tx_message(value: pb::OrderedTx, batch: pb::Batch, key: Path)
    ensures
        txs::tx_parses(value) <==> txs::op_parses(value.op) && txs::keys_parse(
            value.read_set@.map_values(|s: String| s@),
        ) && txs::keys_parse(value.write_set@.map_values(|s: String| s@)),
        txs::tx_in(value).tx_id == value.tx_id,
        txs::tx_in(value).batch_index == value.batch_index,
        txs::tx_in(value).op == txs::op_in(value.op->0.op->0),
        txs::tx_in(value).read_set.contains(key) <==> exists|i: int|
            0 <= i < value.read_set@.len() && (#[trigger] value.read_set@[i])@ == key,
        txs::tx_in(value).write_set.contains(key) <==> exists|i: int|
            0 <= i < value.write_set@.len() && (#[trigger] value.write_set@[i])@ == key,
        txs::batch_parses(batch) <==> forall|i: int|
            0 <= i < batch.txs@.len() ==> txs::tx_parses(#[trigger] batch.txs@[i]),
        txs::batch_in(batch).batch_id == batch.batch_id,
        txs::batch_in(batch).txs.len() == batch.txs@.len(),
        forall|i: int|
            0 <= i < batch.txs@.len() ==> #[trigger] txs::batch_in(batch).txs[i] == txs::tx_in(
                batch.txs@[i],
            ),
{
    let reads = txs::texts(value.read_set@);
    let writes = txs::texts(value.write_set@);
    assert(reads =~= value.read_set@.map_values(|s: String| s@));
    assert(writes =~= value.write_set@.map_values(|s: String| s@));
    if reads.contains(key) {
        let i = choose|i: int| 0 <= i < reads.len() && reads[i] == key;
        assert(value.read_set@[i]@ == key);
    }
    if exists|i: int| 0 <= i < value.read_set@.len() && (#[trigger] value.read_set@[i])@ == key {
        let i = choose|i: int|
            0 <= i < value.read_set@.len() && (#[trigger] value.read_set@[i])@ == key;
        assert(reads[i] == key);
    }
    if writes.contains(key) {
        let i = choose|i: int| 0 <= i < writes.len() && writes[i] == key;
        assert(value.write_set@[i]@ == key);
    }
    if exists|i: int| 0 <= i < value.write_set@.len() && (#[trigger] value.write_set@[i])@ == key {
        let i = choose|i: int|
            0 <= i < value.write_set@.len() && (#[trigger] value.write_set@[i])@ == key;
        assert(writes[i] == key);
    }
}

/// A message of an inode is taken if and only if its kind is that of a file or of a
/// directory, and is then of that kind and has that count.
pub proof fn lemma_inode_message(value: Option<pb::Inode>, inode: Inode, error: Error)
    ensures
        entries::inode_parses(value) <==> value is Some && (value->0.kind == 1
            || value->0.kind == 2),
        entries::inode_parses(value) ==> (entries::inode_of(value->0) == inode
            <==> value->0.child_count == inode.child_count && (value->0.kind == 1
            <==> inode.kind == NodeKind::File)),
        entries::inode_fault(value, error) ==> !entries::inode_parses(value) && match error {
            Error::InvalidProto(ProtoFault::MissingInode) => value is None,
            Error::InvalidProto(ProtoFault::InvalidNodeKind(kind)) => value is Some
                && value->0.kind == kind,
            _ => false,
        },
{
}

/// Which messages of a read are taken, and what they say was found; if one is not, the
/// error says why.
pub proof fn lemma_read_message(entry: pb::ReadEntry, error: Error)
    ensures
        entries::read_parses(entry) <==> path::valid_path(entry.key@) && match entry.value {
            Some(pb::read_entry::Value::Inode(m)) => m.kind == 1 || m.kind == 2,
            Some(pb::read_entry::Value::Missing(_)) => true,
            None => false,
        },
        entries::read_parses(entry) ==> match entry.value {
            Some(pb::read_entry::Value::Inode(m)) => entries::read_value_in(entry)
                == ReadValue::Present(entries::inode_of(m)),
            _ => entries::read_value_in(entry) == ReadValue::Missing,
        },
        entries::read_fault(entry, error) ==> !entries::read_parses(entry),
        entries::read_fault(entry, error) && path::valid_path(entry.key@) ==> (entry.value is None
            <==> error == Error::InvalidProto(ProtoFault::MissingReadValue)),
        entries::read_fault(entry, error) ==> (!path::valid_path(entry.key@)
            <==> error is InvalidPath),
{
}

/// A list of reads is taken if and only if each of them is and no key occurs twice, and
/// then binds each key to what was found there, and no other key.
pub proof fn lemma_reads_message(list: Seq<pb::ReadEntry>, key: Path)
    ensures
        entries::reads_parse(list) <==> (forall|i: int|
            0 <= i < list.len() ==> entries::read_parses(#[trigger] list[i])) && forall|
            i: int,
            j: int,
        |
            0 <= i < j < list.len() ==> (#[trigger] list[i]).key@ != (#[trigger] list[j]).key@,
        entries::reads_in(list).contains_key(key) <==> exists|i: int|
            0 <= i < list.len() && (#[trigger] list[i]).key@ == key,
        entries::reads_parse(list) ==> forall|i: int|
            0 <= i < list.len() ==> entries::reads_in(list)[(#[trigger] list[i]).key@]
                == entries::read_value_in(list[i]),
    decreases list.len(),
{
    let keys = entries::read_keys_in(list);
    if forall|i: int, j: int|
        0 <= i < j < list.len() ==> (#[trigger] list[i]).key@ != (#[trigger] list[j]).key@ {
        assert forall|i: int, j: int|
            0 <= i < keys.len() && 0 <= j < keys.len() && i != j implies keys[i] != keys[j] by {
            if i < j {
                assert(list[i].key@ != list[j].key@);
            } else {
                assert(list[j].key@ != list[i].key@);
            }
        }
    }
    if entries::reads_parse(list) {
        assert forall|i: int, j: int| 0 <= i < j < list.len() implies (#[trigger] list[i]).key@ != (
        #[trigger] list[j]).key@ by {
            assert(keys[i] != keys[j]);
        }
    }
    if list.len() > 0 {
        let front = list.drop_last();
        let n = list.len() - 1;
        lemma_reads_message(front, key);
        if exists|i: int| 0 <= i < list.len() && (#[trigger] list[i]).key@ == key {
            let i = choose|i: int| 0 <= i < list.len() && (#[trigger] list[i]).key@ == key;
            if i < n {
                assert(front[i] == list[i]);
            }
        }
        if exists|i: int| 0 <= i < front.len() && (#[trigger] front[i]).key@ == key {
            let i = choose|i: int| 0 <= i < front.len() && (#[trigger] front[i]).key@ == key;
            assert(front[i] == list[i]);
        }
        if entries::reads_parse(list) {
            assert forall|i: int, j: int| 0 <= i < j < front.len() implies (
            #[trigger] front[i]).key@ != (#[trigger] front[j]).key@ by {
                assert(list[i].key@ != list[j].key@);
            }
            assert forall|i: int| 0 <= i < front.len() implies entries::read_parses(
                #[trigger] front[i],
            ) by {
                assert(entries::read_parses(list[i]));
            }
            assert forall|i: int| 0 <= i < list.len() implies entries::reads_in(list)[(
            #[trigger] list[i]).key@] == entries::read_value_in(list[i]) by {
                if i < n {
                    assert(front[i] == list[i]);
                    assert(list[i].key@ != list[n].key@);
                }
            }
        }
    }
}

/// A list of inodes is taken if and only if each key is well formed and each inode is
/// taken, and no key occurs twice; it then binds each key to its inode, and no other key.
pub proof fn lemma_inodes_message(list: Seq<pb::InodeEntry>, key: Path)
    ensures
        entries::inodes_parse(list) <==> (forall|i: int|
            0 <= i < list.len() ==> path::valid_path((#[trigger] list[i]).key@)
                && entries::inode_parses(list[i].inode)) && forall|i: int, j: int|
            0 <= i < j < list.len() ==> (#[trigger] list[i]).key@ != (#[trigger] list[j]).key@,
        entries::inodes_in(list).contains_key(key) <==> exists|i: int|
            0 <= i < list.len() && (#[trigger] list[i]).key@ == key,
        entries::inodes_parse(list) ==> forall|i: int|
            0 <= i < list.len() ==> entries::inodes_in(list)[(#[trigger] list[i]).key@]
                == entries::inode_of(list[i].inode->0),
    decreases list.len(),
{
    let keys = entries::inode_keys_in(list);
    if forall|i: int, j: int|
        0 <= i < j < list.len() ==> (#[trigger] list[i]).key@ != (#[trigger] list[j]).key@ {
        assert forall|i: int, j: int|
            0 <= i < keys.len() && 0 <= j < keys.len() && i != j implies keys[i] != keys[j] by {
            if i < j {
                assert(list[i].key@ != list[j].key@);
            } else {
                assert(list[j].key@ != list[i].key@);
            }
        }
    }
    if entries::inodes_parse(list) {
        assert forall|i: int, j: int| 0 <= i < j < list.len() implies (#[trigger] list[i]).key@ != (
        #[trigger] list[j]).key@ by {
            assert(keys[i] != keys[j]);
        }
        assert forall|i: int| 0 <= i < list.len() implies path::valid_path(
            (#[trigger] list[i]).key@,
        ) && entries::inode_parses(list[i].inode) by {
            assert(entries::inode_entry_parses(list[i]));
        }
    }
    if list.len() > 0 {
        let front = list.drop_last();
        let n = list.len() - 1;
        lemma_inodes_message(front, key);
        if exists|i: int| 0 <= i < list.len() && (#[trigger] list[i]).key@ == key {
            let i = choose|i: int| 0 <= i < list.len() && (#[trigger] list[i]).key@ == key;
            if i < n {
                assert(front[i] == list[i]);
            }
        }
        if exists|i: int| 0 <= i < front.len() && (#[trigger] front[i]).key@ == key {
            let i = choose|i: int| 0 <= i < front.len() && (#[trigger] front[i]).key@ == key;
            assert(front[i] == list[i]);
        }
        if entries::inodes_parse(list) {
            assert forall|i: int, j: int| 0 <= i < j < front.len() implies (
            #[trigger] front[i]).key@ != (#[trigger] front[j]).key@ by {
                assert(list[i].key@ != list[j].key@);
            }
            assert forall|i: int| 0 <= i < front.len() implies path::valid_path(
                (#[trigger] front[i]).key@,
            ) && entries::inode_parses(front[i].inode) by {
                assert(entries::inode_entry_parses(list[i]));
            }
            assert forall|i: int| 0 <= i < list.len() implies entries::inodes_in(list)[(
            #[trigger] list[i]).key@] == entries::inode_of(list[i].inode->0) by {
                if i < n {
                    assert(front[i] == list[i]);
                    assert(list[i].key@ != list[n].key@);
                }
            }
        }
    }
}

/// Which messages of a write are taken, and what they write. A list is taken if and only
/// if each of them is, and keeps its order.
pub proof fn lemma_writes_message(list: Seq<pb::WriteEntry>)
    ensures
        entries::writes_parse(list) <==> forall|i: int|
            0 <= i < list.len() ==> path::valid_path((#[trigger] list[i]).key@)
                && match list[i].value {
                Some(pb::write_entry::Value::Inode(m)) => m.kind == 1 || m.kind == 2,
                Some(pb::write_entry::Value::Delete(_)) => true,
                None => false,
            },
        entries::writes_in(list).len() == list.len(),
        entries::writes_parse(list) ==> forall|i: int|
            0 <= i < list.len() ==> #[trigger] entries::writes_in(list)[i]
                == match list[i].value {
                Some(pb::write_entry::Value::Inode(m)) => WriteOpView::Put {
                    key: list[i].key@,
                    value: entries::inode_of(m),
                },
                _ => WriteOpView::Delete { key: list[i].key@ },
            },
{
    if forall|i: int|
        0 <= i < list.len() ==> path::valid_path((#[trigger] list[i]).key@) && match list[i].value {
            Some(pb::write_entry::Value::Inode(m)) => m.kind == 1 || m.kind == 2,
            Some(pb::write_entry::Value::Delete(_)) => true,
            None => false,
        } {
        assert forall|i: int| 0 <= i < list.len() implies entries::write_parses(
            #[trigger] list[i],
        ) by {
            assert(path::valid_path(list[i].key@));
        }
    }
    if entries::writes_parse(list) {
        assert forall|i: int| 0 <= i < list.len() implies path::valid_path(
            (#[trigger] list[i]).key@,
        ) && match list[i].value {
            Some(pb::write_entry::Value::Inode(m)) => m.kind == 1 || m.kind == 2,
            Some(pb::write_entry::Value::Delete(_)) => true,
            None => false,
        } by {
            assert(entries::write_parses(list[i]));
        }
    }
}

/// A record that is sent names its transaction, its shard and its result; an order that is
/// sent lists its places in their order.
pub proof fn lemma_record_messages(record: TxResultRecord, indices: Seq<usize>)
    ensures
        records::record_message(record).tx_id == record.tx_id,
        records::record_message(record).shard_id == record.shard_id,
        records::record_message(record).result == codes::tx_result_code(record.result),
        records::narrow(indices).len() == indices.len(),
        forall|i: int|
            0 <= i < indices.len() && indices[i] <= u32::MAX ==> #[trigger] records::narrow(
                indices,
            )[i] == indices[i],
{
}

} // verus!
