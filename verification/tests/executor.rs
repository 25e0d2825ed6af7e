use calvinfs_demo::collections::{OrdMap, OrdSet};
use calvinfs_demo::engine::batch::{
    execute_checked, run_on_shard, sort_records, validate_batch_order, validate_local_writes,
    would_overflow,
};
use calvinfs_demo::error::BatchFault;
use calvinfs_demo::executor::{
    derive_read_write_set, execute_deterministic, filter_local_writes, validate_sets,
};
use calvinfs_demo::model::{
    Batch, FsOp, Inode, Key, OrderedTx, ReadValue, TxResult, TxResultRecord, WriteOp,
};
use calvinfs_demo::router::{stable_hash, ShardLayout};
use calvinfs_demo::state::{apply_write_op, apply_write_ops, read_keys, read_value};
use calvinfs_demo::workload::metadata_workload;
use calvinfs_demo::Error;

fn key(path: &str) -> Key {
    Key::new(path.to_string()).unwrap()
}

fn listed(set: &OrdSet<Key>) -> Vec<String> {
    (0..set.len()).map(|i| set.at(i).to_text()).collect()
}

fn tx(op: FsOp) -> OrderedTx {
    let (read_set, write_set) = derive_read_write_set(&op).unwrap();
    OrderedTx { tx_id: 1, batch_index: 0, op, read_set, write_set }
}

fn present(inode: Inode) -> ReadValue {
    ReadValue::Present(inode)
}

fn reads(values: Vec<(&str, ReadValue)>) -> OrdMap<Key, ReadValue> {
    let mut map = OrdMap::new();
    for (path, value) in values {
        map.insert(key(path), value);
    }
    map
}

fn run(op: FsOp, values: Vec<(&str, ReadValue)>) -> (TxResult, Vec<(String, Option<Inode>)>) {
    let output = execute_deterministic(&tx(op), &reads(values));
    let writes = output
        .writes
        .iter()
        .map(|w| match w {
            WriteOp::Put { key, value } => (key.to_text(), Some(*value)),
            WriteOp::Delete { key } => (key.to_text(), None),
        })
        .collect();
    (output.result, writes)
}

fn create(path: &str) -> FsOp {
    FsOp::Create { path: key(path) }
}

fn mkdir(path: &str) -> FsOp {
    FsOp::Mkdir { path: key(path) }
}

fn unlink(path: &str) -> FsOp {
    FsOp::Unlink { path: key(path) }
}

fn rmdir(path: &str) -> FsOp {
    FsOp::Rmdir { path: key(path) }
}

fn rename(src: &str, dst: &str) -> FsOp {
    FsOp::Rename { src: key(src), dst: key(dst) }
}

fn stat(path: &str) -> FsOp {
    FsOp::Stat { path: key(path) }
}

fn refusal(result: TxResult) -> (TxResult, Vec<(String, Option<Inode>)>) {
    (result, Vec::new())
}

#[test]
fn key_sets_follow_from_the_operation() {
    let (read, write) = derive_read_write_set(&create("/a/b")).unwrap();
    assert_eq!(listed(&read), vec!["/a", "/a/b"]);
    assert_eq!(listed(&write), vec!["/a", "/a/b"]);
    let (read, write) = derive_read_write_set(&mkdir("/")).unwrap();
    assert_eq!(listed(&read), vec!["/"]);
    assert_eq!(listed(&write), vec!["/"]);
    let (read, write) = derive_read_write_set(&stat("/a/b")).unwrap();
    assert_eq!(listed(&read), vec!["/a/b"]);
    assert!(write.is_empty());
    let (read, _) = derive_read_write_set(&rename("/a/x", "/b/y")).unwrap();
    assert_eq!(listed(&read), vec!["/a", "/a/x", "/b", "/b/y"]);
    let (read, write) = derive_read_write_set(&rename("/", "/b/y")).unwrap();
    assert_eq!(listed(&read), vec!["/", "/b", "/b/y"]);
    assert_eq!(listed(&write), vec!["/", "/b", "/b/y"]);
    let (read, write) = derive_read_write_set(&rename("/a/x", "/a/x")).unwrap();
    assert_eq!(listed(&read), vec!["/a", "/a/x"]);
    assert_eq!(listed(&write), vec!["/a", "/a/x"]);
}

#[test]
fn foreign_key_sets_are_refused() {
    assert!(validate_sets(&tx(create("/a/b"))).is_ok());
    let mut wrong = tx(create("/a/b"));
    wrong.read_set.insert(key("/c"));
    match validate_sets(&wrong) {
        Err(Error::InvalidBatch(BatchFault::ReadSetMismatch { tx_id, expected, found })) => {
            assert_eq!(tx_id, 1);
            assert_eq!(listed(&expected), vec!["/a", "/a/b"]);
            assert_eq!(listed(&found), vec!["/a", "/a/b", "/c"]);
        }
        _ => panic!("the read set was not refused"),
    }
    let mut wrong = tx(create("/a/b"));
    wrong.write_set.remove(&key("/a"));
    assert!(matches!(
        validate_sets(&wrong),
        Err(Error::InvalidBatch(BatchFault::WriteSetMismatch { tx_id: 1, .. }))
    ));
}

#[test]
fn create_and_mkdir_answer_as_they_should() {
    let dir = |n| present(Inode::directory(n));
    let file = present(Inode::file());
    assert_eq!(
        run(create("/a/b"), vec![("/a", dir(3)), ("/a/b", ReadValue::Missing)]),
        (
            TxResult::Success,
            vec![
                ("/a".to_string(), Some(Inode::directory(4))),
                ("/a/b".to_string(), Some(Inode::file())),
            ]
        )
    );
    assert_eq!(
        run(mkdir("/a/b"), vec![("/a", dir(0)), ("/a/b", ReadValue::Missing)]),
        (
            TxResult::Success,
            vec![
                ("/a".to_string(), Some(Inode::directory(1))),
                ("/a/b".to_string(), Some(Inode::directory(0))),
            ]
        )
    );
    assert_eq!(
        run(mkdir("/"), vec![("/", ReadValue::Missing)]),
        (TxResult::Success, vec![("/".to_string(), Some(Inode::directory(0)))])
    );
    assert_eq!(run(mkdir("/"), vec![("/", dir(0))]), refusal(TxResult::AlreadyExists));
    assert_eq!(run(create("/"), vec![("/", dir(0))]), refusal(TxResult::Invalid));
    assert_eq!(
        run(create("/a/b"), vec![("/a", ReadValue::Missing), ("/a/b", ReadValue::Missing)]),
        refusal(TxResult::NotFound)
    );
    assert_eq!(
        run(create("/a/b"), vec![("/a", file), ("/a/b", ReadValue::Missing)]),
        refusal(TxResult::NotDirectory)
    );
    assert_eq!(
        run(create("/a/b"), vec![("/a", dir(1)), ("/a/b", file)]),
        refusal(TxResult::AlreadyExists)
    );
    assert_eq!(run(create("/a/b"), vec![]), refusal(TxResult::Invalid));
}

#[test]
fn unlink_and_rmdir_answer_as_they_should() {
    let dir = |n| present(Inode::directory(n));
    let file = present(Inode::file());
    assert_eq!(
        run(unlink("/a/b"), vec![("/a", dir(2)), ("/a/b", file)]),
        (
            TxResult::Success,
            vec![("/a".to_string(), Some(Inode::directory(1))), ("/a/b".to_string(), None)]
        )
    );
    assert_eq!(
        run(rmdir("/a/b"), vec![("/a", dir(2)), ("/a/b", dir(0))]),
        (
            TxResult::Success,
            vec![("/a".to_string(), Some(Inode::directory(1))), ("/a/b".to_string(), None)]
        )
    );
    assert_eq!(
        run(unlink("/a/b"), vec![("/a", dir(2)), ("/a/b", ReadValue::Missing)]),
        refusal(TxResult::NotFound)
    );
    assert_eq!(
        run(unlink("/a/b"), vec![("/a", dir(2)), ("/a/b", dir(0))]),
        refusal(TxResult::Invalid)
    );
    assert_eq!(run(unlink("/"), vec![("/", dir(2))]), refusal(TxResult::Invalid));
    assert_eq!(
        run(rmdir("/a/b"), vec![("/a", dir(2)), ("/a/b", file)]),
        refusal(TxResult::NotDirectory)
    );
    assert_eq!(
        run(rmdir("/a/b"), vec![("/a", dir(2)), ("/a/b", dir(1))]),
        refusal(TxResult::DirectoryNotEmpty)
    );
    assert_eq!(run(rmdir("/"), vec![("/", dir(0))]), refusal(TxResult::Invalid));
}

#[test]
fn rename_and_stat_answer_as_they_should() {
    let dir = |n| present(Inode::directory(n));
    let file = present(Inode::file());
    assert_eq!(
        run(
            rename("/a/x", "/b/y"),
            vec![("/a", dir(2)), ("/a/x", file), ("/b", dir(0)), ("/b/y", ReadValue::Missing)]
        ),
        (
            TxResult::Success,
            vec![
                ("/a/x".to_string(), None),
                ("/b/y".to_string(), Some(Inode::file())),
                ("/a".to_string(), Some(Inode::directory(1))),
                ("/b".to_string(), Some(Inode::directory(1))),
            ]
        )
    );
    assert_eq!(
        run(
            rename("/a/x", "/a/y"),
            vec![("/a", dir(2)), ("/a/x", file), ("/a/y", ReadValue::Missing)]
        ),
        (
            TxResult::Success,
            vec![("/a/x".to_string(), None), ("/a/y".to_string(), Some(Inode::file()))]
        )
    );
    assert_eq!(run(rename("/a/x", "/a/x"), vec![("/a/x", file)]), refusal(TxResult::Invalid));
    assert_eq!(run(rename("/", "/a/x"), vec![("/", dir(1))]), refusal(TxResult::Invalid));
    let base = |src: ReadValue, dst: ReadValue, dst_dir: ReadValue| {
        vec![("/a", present(Inode::directory(2))), ("/a/x", src), ("/b", dst_dir), ("/b/y", dst)]
    };
    assert_eq!(
        run(rename("/a/x", "/b/y"), base(ReadValue::Missing, ReadValue::Missing, dir(0))),
        refusal(TxResult::NotFound)
    );
    assert_eq!(
        run(rename("/a/x", "/b/y"), base(file, file, dir(1))),
        refusal(TxResult::AlreadyExists)
    );
    assert_eq!(
        run(rename("/a/x", "/b/y"), base(file, ReadValue::Missing, file)),
        refusal(TxResult::NotDirectory)
    );
    assert_eq!(
        run(rename("/a/x", "/b/y"), base(dir(1), ReadValue::Missing, dir(0))),
        refusal(TxResult::DirectoryNotEmpty)
    );
    assert_eq!(run(stat("/a"), vec![("/a", file)]), refusal(TxResult::Success));
    assert_eq!(run(stat("/a"), vec![("/a", ReadValue::Missing)]), refusal(TxResult::NotFound));
}

#[test]
fn counts_that_would_overflow_are_found() {
    let full = || vec![
        ("/a", present(Inode::directory(u64::MAX))),
        ("/a/b", ReadValue::Missing),
    ];
    let op = create("/a/b");
    assert!(would_overflow(&op, &reads(full())));
    assert!(execute_checked(&tx(op.clone()), &reads(full())).is_none());
    let there = vec![
        ("/a", present(Inode::directory(u64::MAX))),
        ("/a/b", present(Inode::file())),
    ];
    assert!(!would_overflow(&op, &reads(there)));
    assert!(!would_overflow(&unlink("/a/b"), &reads(full())));
    let layout = ShardLayout::new(1);
    assert!(matches!(run_on_shard(&tx(op), &reads(full()), 0, &layout), Ok(None)));
}

#[test]
fn a_shard_keeps_its_own_writes() {
    let layout = ShardLayout::new(3);
    let values = vec![
        ("/a", present(Inode::directory(0))),
        ("/a/b", ReadValue::Missing),
    ];
    let tx = tx(create("/a/b"));
    let mut kept = 0;
    for shard in 0..3 {
        let writes = execute_deterministic(&tx, &reads(values.clone())).writes;
        let local = filter_local_writes(writes, shard, &layout);
        for write in &local {
            assert_eq!(layout.shard_for_key(write.key()), shard);
        }
        kept += local.len();
        let outcome = run_on_shard(&tx, &reads(values.clone()), shard, &layout).unwrap().unwrap();
        assert_eq!(outcome.result, TxResult::Success);
        assert_eq!(outcome.writes.len(), local.len());
    }
    assert_eq!(kept, 2);
}

#[test]
fn stray_writes_are_refused() {
    let writes = vec![
        WriteOp::Delete { key: key("/a") },
        WriteOp::Put { key: key("/b"), value: Inode::file() },
    ];
    let mut expected = OrdSet::new();
    expected.insert(key("/a"));
    match validate_local_writes(9, &writes, &expected) {
        Err(Error::InvalidBatch(BatchFault::UnexpectedWrite { tx_id, key })) => {
            assert_eq!((tx_id, key.as_str()), (9, "/b"));
        }
        _ => panic!("the write was not refused"),
    }
    expected.insert(key("/b"));
    assert!(validate_local_writes(9, &writes, &expected).is_ok());
}

#[test]
fn batches_out_of_order_are_refused() {
    let at = |tx_id, batch_index| {
        let mut t = tx(stat("/a"));
        t.tx_id = tx_id;
        t.batch_index = batch_index;
        t
    };
    let good = Batch { batch_id: 5, txs: vec![at(1, 0), at(2, 1)] };
    assert!(validate_batch_order(&good).is_ok());
    assert!(validate_batch_order(&Batch { batch_id: 5, txs: vec![] }).is_ok());
    let skewed = Batch { batch_id: 5, txs: vec![at(1, 0), at(2, 2)] };
    assert!(matches!(
        validate_batch_order(&skewed),
        Err(Error::InvalidBatch(BatchFault::OutOfOrder { tx_id: 2, batch_index: 2, expected: 1 }))
    ));
    let twice = Batch { batch_id: 5, txs: vec![at(1, 0), at(1, 1)] };
    assert!(matches!(
        validate_batch_order(&twice),
        Err(Error::InvalidBatch(BatchFault::DuplicateTx { tx_id: 1, batch_id: 5 }))
    ));
}

#[test]
fn records_are_put_in_order() {
    let record = |tx_id, shard_id, result| TxResultRecord { tx_id, shard_id, result };
    let sorted = sort_records(&vec![
        record(2, 1, TxResult::Success),
        record(1, 3, TxResult::Invalid),
        record(2, 0, TxResult::NotFound),
        record(1, 3, TxResult::Success),
    ]);
    let seen: Vec<(u64, u64)> = sorted.iter().map(|r| (r.tx_id, r.shard_id)).collect();
    assert_eq!(seen, vec![(1, 3), (1, 3), (2, 0), (2, 1)]);
    assert_eq!(sorted[0].result, TxResult::Invalid);
    assert_eq!(sorted[1].result, TxResult::Success);
}

#[test]
fn the_hash_is_the_one_documented() {
    assert_eq!(stable_hash(b""), 0xcbf2_9ce4_8422_2325);
    assert_eq!(stable_hash(b"a"), 0xaf63_dc4c_8601_ec8c);
    assert_eq!(stable_hash(b"foobar"), 0x8594_4171_f739_67e8);
    let layout = ShardLayout::new(4);
    assert_eq!(layout.shard_for_key(&key("/")), stable_hash(b"/") % 4);
    assert_eq!(layout.shard_for_key(&key("/a/b")), stable_hash(b"/a/b") % 4);
    assert_eq!(layout.shard_for_key(&key("/\u{e9}")), stable_hash("/\u{e9}".as_bytes()) % 4);
}

#[test]
fn participants_follow_from_the_keys() {
    let layout = ShardLayout::new(4);
    let t = tx(rename("/a/x", "/b/y"));
    let participants = layout.participants(&t);
    for i in 0..t.read_set.len() {
        let shard = layout.shard_for_key(t.read_set.at(i));
        assert!(participants.all.contains(&shard));
        assert!(participants.active.contains(&shard));
        assert!(layout.local_read_keys(&t, shard).contains(t.read_set.at(i)));
        assert!(layout.local_write_keys(&t, shard).contains(t.read_set.at(i)));
        assert!(layout.local_lock_keys(&t, shard).contains(t.read_set.at(i)));
    }
    assert!(layout.shards_for_keys(&t.read_set).same_as(&participants.all));
    let least = *participants.active.at(0);
    assert_eq!(layout.result_shard(&t), Some(least));
    let s = tx(stat("/a"));
    let home = layout.shard_for_key(&key("/a"));
    assert_eq!(layout.result_shard(&s), Some(home));
    assert_eq!(layout.read_only_coordinator(&s.read_set), Some(home));
    assert!(layout.participants(&s).active.contains(&home));
    assert_eq!(layout.read_only_coordinator(&OrdSet::new()), None);
    assert_eq!(layout.result_shard_for_sets(&OrdSet::new(), &OrdSet::new()), None);
}

#[test]
fn writes_change_the_state() {
    let mut state: OrdMap<Key, Inode> = OrdMap::new();
    apply_write_op(&mut state, WriteOp::Put { key: key("/"), value: Inode::directory(1) });
    apply_write_ops(
        &mut state,
        &vec![
            WriteOp::Put { key: key("/a"), value: Inode::file() },
            WriteOp::Put { key: key("/b"), value: Inode::file() },
            WriteOp::Delete { key: key("/a") },
        ],
    );
    assert_eq!(read_value(&state, &key("/a")), ReadValue::Missing);
    assert_eq!(read_value(&state, &key("/b")), present(Inode::file()));
    let mut keys = OrdSet::new();
    keys.insert(key("/"));
    keys.insert(key("/a"));
    let read = read_keys(&state, &keys);
    assert_eq!(read.len(), 2);
    assert_eq!(read.get(&key("/")), Some(&present(Inode::directory(1))));
    assert_eq!(read.get(&key("/a")), Some(&ReadValue::Missing));
}

#[test]
fn what_was_made_can_be_unmade() {
    for (make, unmake) in [
        (create("/d/a"), unlink("/d/a")),
        (mkdir("/d/a"), rmdir("/d/a")),
    ] {
        let mut state = OrdMap::new();
        state.insert(key("/"), Inode::directory(1));
        state.insert(key("/d"), Inode::directory(3));
        let before = state.clone();
        for op in [make, unmake] {
            let tx = tx(op);
            let output = execute_deterministic(&tx, &read_keys(&state, &tx.read_set));
            assert_eq!(output.result, TxResult::Success);
            apply_write_ops(&mut state, &output.writes);
        }
        assert_eq!(state.len(), before.len());
        for i in 0..before.len() {
            assert!(state.get(before.key_at(i)) == Some(before.value_at(i)));
        }
    }
}

#[test]
fn the_workload_succeeds_from_nothing() {
    let mut state: OrdMap<Key, Inode> = OrdMap::new();
    let mut made = Vec::new();
    for op in metadata_workload(3, 5).unwrap().into_iter().flatten() {
        let tx = tx(op);
        let output = execute_deterministic(&tx, &read_keys(&state, &tx.read_set));
        assert_eq!(output.result, TxResult::Success);
        apply_write_ops(&mut state, &output.writes);
        match tx.op {
            FsOp::Create { path } | FsOp::Mkdir { path } => {
                assert!(!made.contains(&path.to_text()));
                made.push(path.to_text());
            }
            _ => panic!("the workload only makes entries"),
        }
    }
    assert_eq!(state.len(), 15);
    assert_eq!(state.get(&key("/")).unwrap().child_count, 4);
    assert_eq!(state.get(&key("/dir_0")).unwrap().child_count, 4);
    assert_eq!(state.get(&key("/dir_3")).unwrap().child_count, 2);
}
