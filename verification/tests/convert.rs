use calvinfs_demo::collections::{OrdMap, OrdSet};
use calvinfs_demo::convert::{
    batch_from_proto, batch_to_proto, fs_op_from_proto, fs_op_to_proto, inode_entries_from_proto,
    inode_entries_to_proto, inode_from_proto, inode_to_proto, local_read_status_from_i32,
    local_read_status_to_i32, ordered_tx_from_proto,
    ordered_tx_to_proto, read_entries_from_proto, read_entries_to_proto, read_entry_from_proto,
    read_phase_from_i32, read_phase_to_i32, scc_reorder_record_from_proto,
    scc_reorder_record_to_proto, scc_reorder_records_from_proto, scc_reorder_records_to_proto,
    tx_result_from_i32, tx_result_record_from_proto, tx_result_record_to_proto,
    tx_result_records_from_proto, tx_result_records_to_proto, tx_result_to_i32,
    write_entries_from_proto, write_entries_to_proto,
};
use calvinfs_demo::convert::codes::{node_kind_from_i32, node_kind_to_i32};
use calvinfs_demo::error::{KeyField, ProtoFault};
use calvinfs_demo::model::{
    Batch, FsOp, Inode, Key, LocalReadStatus, NodeKind, OrderedTx, ReadPhase, ReadValue,
    SccReorderRecord, TxResult, TxResultRecord, WriteOp,
};
use calvinfs_demo::proto::pb;
use calvinfs_demo::proto::pb::{fs_op, read_entry, write_entry};
use calvinfs_demo::{Error, Result};

fn key(path: &str) -> Key {
    Key::new(path.to_string()).unwrap()
}

fn keys(paths: &[&str]) -> OrdSet<Key> {
    let mut set = OrdSet::new();
    for path in paths {
        set.insert(key(path));
    }
    set
}

fn fault<T>(r: Result<T>) -> ProtoFault {
    match r {
        Err(Error::InvalidProto(fault)) => fault,
        _ => panic!("the message was accepted"),
    }
}

fn is_path_error<T>(r: Result<T>) -> bool {
    matches!(r, Err(Error::InvalidPath(_)))
}

#[test]
fn codes_stand_for_values() {
    let results = [
        TxResult::Success,
        TxResult::NotFound,
        TxResult::AlreadyExists,
        TxResult::NotDirectory,
        TxResult::DirectoryNotEmpty,
        TxResult::Invalid,
    ];
    for (i, result) in results.into_iter().enumerate() {
        assert_eq!(tx_result_to_i32(result), i as i32 + 1);
        assert_eq!(tx_result_from_i32(i as i32 + 1).unwrap(), result);
    }
    let phases = [
        ReadPhase::Calvin,
        ReadPhase::SccEffect,
        ReadPhase::SccCondition,
        ReadPhase::AriaFallback,
    ];
    for (i, phase) in phases.into_iter().enumerate() {
        assert_eq!(read_phase_to_i32(phase), i as i32 + 1);
        assert_eq!(read_phase_from_i32(i as i32 + 1).unwrap(), phase);
    }
    for status in [LocalReadStatus::Success, LocalReadStatus::SpeculationFailed] {
        let code = local_read_status_to_i32(status);
        assert_eq!(local_read_status_from_i32(code).unwrap(), status);
    }
    for kind in [NodeKind::File, NodeKind::Directory] {
        assert_eq!(node_kind_from_i32(node_kind_to_i32(kind)).unwrap(), kind);
    }
    assert_eq!(node_kind_to_i32(NodeKind::File), 1);
    assert_eq!(local_read_status_to_i32(LocalReadStatus::Success), 1);
}

#[test]
fn unknown_codes_are_refused() {
    for code in [-1, 0, 7] {
        assert!(matches!(
            fault(tx_result_from_i32(code)),
            ProtoFault::InvalidTxResult(c) if c == code
        ));
    }
    for code in [-1, 0, 5] {
        assert!(matches!(
            fault(read_phase_from_i32(code)),
            ProtoFault::InvalidReadPhase(c) if c == code
        ));
    }
    for code in [0, 3] {
        assert!(matches!(
            fault(local_read_status_from_i32(code)),
            ProtoFault::InvalidLocalReadStatus(c) if c == code
        ));
        assert!(matches!(
            fault(node_kind_from_i32(code)),
            ProtoFault::InvalidNodeKind(c) if c == code
        ));
    }
}

#[test]
fn operations_survive_the_way() {
    let ops = vec![
        FsOp::Create { path: key("/a") },
        FsOp::Mkdir { path: key("/") },
        FsOp::Unlink { path: key("/a/b") },
        FsOp::Rmdir { path: key("/c") },
        FsOp::Rename { src: key("/a"), dst: key("/b") },
        FsOp::Stat { path: key("/x/y/z") },
    ];
    for op in ops {
        let message = fs_op_to_proto(&op);
        let back = fs_op_from_proto(Some(message)).unwrap();
        assert_eq!(format!("{:?}", back), format!("{:?}", op));
    }
    assert!(matches!(fault(fs_op_from_proto(None)), ProtoFault::MissingFsOp));
    assert!(matches!(
        fault(fs_op_from_proto(Some(pb::FsOp { op: None }))),
        ProtoFault::MissingFsOpKind
    ));
    let bad = pb::FsOp { op: Some(fs_op::Op::Create(pb::Create { path: "a".to_string() })) };
    assert!(is_path_error(fs_op_from_proto(Some(bad))));
}

fn sample_tx() -> OrderedTx {
    OrderedTx {
        tx_id: 11,
        batch_index: 0,
        op: FsOp::Create { path: key("/a/b") },
        read_set: keys(&["/a", "/a/b"]),
        write_set: keys(&["/a/b", "/a"]),
    }
}

#[test]
fn batches_survive_the_way() {
    let tx = sample_tx();
    let message = ordered_tx_to_proto(&tx);
    let back = ordered_tx_from_proto(message).unwrap();
    assert_eq!(back.tx_id, 11);
    assert!(back.read_set.same_as(&tx.read_set));
    assert!(back.write_set.same_as(&tx.write_set));
    let batch = Batch { batch_id: 4, txs: vec![sample_tx(), sample_tx()] };
    let back = batch_from_proto(batch_to_proto(&batch)).unwrap();
    assert_eq!(back.batch_id, 4);
    assert_eq!(back.txs.len(), 2);
    assert_eq!(back.txs[1].tx_id, 11);
}

#[test]
fn repeated_keys_of_a_transaction_are_refused() {
    let mut message = ordered_tx_to_proto(&sample_tx());
    message.read_set.push("/a".to_string());
    match fault(ordered_tx_from_proto(message)) {
        ProtoFault::DuplicateKey { key, field } => {
            assert_eq!((key.as_str(), field), ("/a", KeyField::ReadSet));
        }
        _ => panic!("another fault"),
    }
    let mut message = ordered_tx_to_proto(&sample_tx());
    message.write_set.push("/a/b".to_string());
    assert!(matches!(
        fault(ordered_tx_from_proto(message)),
        ProtoFault::DuplicateKey { field: KeyField::WriteSet, .. }
    ));
    let mut message = ordered_tx_to_proto(&sample_tx());
    message.write_set.push("a".to_string());
    assert!(is_path_error(ordered_tx_from_proto(message)));
    let mut message = ordered_tx_to_proto(&sample_tx());
    message.op = None;
    assert!(matches!(fault(ordered_tx_from_proto(message)), ProtoFault::MissingFsOp));
}

#[test]
fn inodes_survive_the_way() {
    let inode = Inode::directory(5);
    let message = inode_to_proto(&inode);
    assert_eq!(message.child_count, 5);
    assert_eq!(inode_from_proto(Some(message)).unwrap(), inode);
    assert!(matches!(fault(inode_from_proto(None)), ProtoFault::MissingInode));
    assert!(matches!(
        fault(inode_from_proto(Some(pb::Inode { kind: 9, child_count: 0 }))),
        ProtoFault::InvalidNodeKind(9)
    ));
    let mut entries = OrdMap::new();
    entries.insert(key("/b"), Inode::file());
    entries.insert(key("/a"), Inode::directory(2));
    let messages = inode_entries_to_proto(&entries);
    assert_eq!(messages[0].key, "/a");
    let mut doubled = inode_entries_to_proto(&entries);
    doubled.push(pb::InodeEntry {
        key: "/b".to_string(),
        inode: Some(inode_to_proto(&Inode::file())),
    });
    let back = inode_entries_from_proto(messages).unwrap();
    assert_eq!(back.len(), 2);
    assert_eq!(back.get(&key("/a")), Some(&Inode::directory(2)));
    match fault(inode_entries_from_proto(doubled)) {
        ProtoFault::DuplicateInodeKey { key } => assert_eq!(key.as_str(), "/b"),
        _ => panic!("another fault"),
    }
}

#[test]
fn reads_survive_the_way() {
    let mut reads = OrdMap::new();
    reads.insert(key("/b"), ReadValue::Missing);
    reads.insert(key("/a"), ReadValue::Present(Inode::directory(1)));
    let messages = read_entries_to_proto(&reads);
    assert_eq!(messages.len(), 2);
    assert_eq!(messages[0].key, "/a");
    let back = read_entries_from_proto(messages).unwrap();
    assert_eq!(back.get(&key("/a")), Some(&ReadValue::Present(Inode::directory(1))));
    assert_eq!(back.get(&key("/b")), Some(&ReadValue::Missing));
    let missing = || pb::ReadEntry {
        key: "/b".to_string(),
        value: Some(read_entry::Value::Missing(pb::Missing {})),
    };
    let (found, value) = read_entry_from_proto(Some(missing())).unwrap();
    assert_eq!((found.as_str(), value), ("/b", ReadValue::Missing));
    match fault(read_entries_from_proto(vec![missing(), missing()])) {
        ProtoFault::DuplicateReadKey { key } => assert_eq!(key.as_str(), "/b"),
        _ => panic!("another fault"),
    }
    assert!(matches!(fault(read_entry_from_proto(None)), ProtoFault::MissingReadEntry));
    let empty = pb::ReadEntry { key: "/b".to_string(), value: None };
    assert!(matches!(fault(read_entry_from_proto(Some(empty))), ProtoFault::MissingReadValue));
    let bad = pb::ReadEntry { key: "b".to_string(), value: None };
    assert!(is_path_error(read_entry_from_proto(Some(bad))));
}

#[test]
fn writes_survive_the_way() {
    let writes = vec![
        WriteOp::Put { key: key("/a"), value: Inode::directory(3) },
        WriteOp::Delete { key: key("/b") },
    ];
    let messages = write_entries_to_proto(&writes);
    assert!(matches!(messages[1].value, Some(write_entry::Value::Delete(_))));
    let back = write_entries_from_proto(messages).unwrap();
    assert_eq!(format!("{:?}", back), format!("{:?}", writes));
    let empty = pb::WriteEntry { key: "/b".to_string(), value: None };
    assert!(matches!(
        fault(write_entries_from_proto(vec![empty])),
        ProtoFault::MissingWriteValue
    ));
}

#[test]
fn records_survive_the_way() {
    let record = TxResultRecord { tx_id: 3, shard_id: 1, result: TxResult::NotDirectory };
    assert_eq!(tx_result_record_from_proto(tx_result_record_to_proto(&record)).unwrap(), record);
    let records = vec![record, TxResultRecord { tx_id: 4, ..record }];
    let back = tx_result_records_from_proto(tx_result_records_to_proto(&records)).unwrap();
    assert_eq!(back, records);
    let mut messages = tx_result_records_to_proto(&records);
    messages[1].result = 0;
    assert!(matches!(
        fault(tx_result_records_from_proto(messages)),
        ProtoFault::InvalidTxResult(0)
    ));
    let order = SccReorderRecord {
        batch_id: 2,
        speculative_success_indices: vec![0, 3],
        fallback_indices: vec![1, 2],
    };
    let back = scc_reorder_record_from_proto(scc_reorder_record_to_proto(&order));
    assert_eq!(back.speculative_success_indices, vec![0, 3]);
    let orders = scc_reorder_records_to_proto(&vec![order.clone(), order]);
    let back = scc_reorder_records_from_proto(orders);
    assert_eq!(back.len(), 2);
    assert_eq!(back[1].batch_id, 2);
    assert_eq!(back[1].fallback_indices, vec![1, 2]);
}
