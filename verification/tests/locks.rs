use calvinfs_demo::collections::{OrdMap, OrdSet};
use calvinfs_demo::engine::calvin::CalvinBatch;
use calvinfs_demo::engine::locked_run::{completion, LockedAction, LockedRun};
use calvinfs_demo::engine::reads::{LocalReadResult, LockWait, ReadCollector};
use calvinfs_demo::error::{BatchFault, LockFault};
use calvinfs_demo::executor::derive_read_write_set;
use calvinfs_demo::lock::{LockGrant, LockTable};
use calvinfs_demo::model::{
    Batch, FsOp, Inode, Key, LocalReadStatus, OrderedTx, ReadPhase, ReadValue, TxId, TxResult,
    WriteOp,
};
use calvinfs_demo::router::ShardLayout;
use calvinfs_demo::{Error, Result};

fn key(path: &str) -> Key {
    Key::new(path.to_string()).unwrap()
}

fn keys(paths: &[&str]) -> OrdSet<Key> {
    let mut set = OrdSet::new();
    for path in paths {
        set.insert(key(path));
    }
    set
}

fn tx(tx_id: TxId, batch_index: u32, op: FsOp) -> OrderedTx {
    let (read_set, write_set) = derive_read_write_set(&op).unwrap();
    OrderedTx { tx_id, batch_index, op, read_set, write_set }
}

fn grants(list: &[(TxId, LockGrant)]) -> Vec<(TxId, String)> {
    list.iter().map(|(id, grant)| (*id, grant.key.to_text())).collect()
}

fn grant(path: &str) -> LockGrant {
    LockGrant { key: key(path) }
}

fn lock_fault<T>(r: Result<T>) -> LockFault {
    match r {
        Err(Error::LockInvariant(fault)) => fault,
        _ => panic!("the order of locks was not broken"),
    }
}

fn batch_fault<T>(r: Result<T>) -> BatchFault {
    match r {
        Err(Error::InvalidBatch(fault)) => fault,
        _ => panic!("nothing was refused"),
    }
}

#[test]
fn locks_go_to_whoever_came_first() {
    let mut table = LockTable::new();
    table.enqueue(1, &keys(&["/a", "/b"]));
    table.enqueue(2, &keys(&["/b", "/c"]));
    table.enqueue(3, &keys(&["/b"]));
    assert_eq!(
        grants(&table.grant_initial_heads()),
        vec![(1, "/a".to_string()), (1, "/b".to_string()), (2, "/c".to_string())]
    );
    let mut next = Vec::new();
    table.release_and_grant_next(1, &keys(&["/a", "/b"]), &mut next).unwrap();
    assert_eq!(grants(&next), vec![(2, "/b".to_string())]);
    table.release_and_grant_next(2, &keys(&["/b", "/c"]), &mut next).unwrap();
    assert_eq!(grants(&next), vec![(2, "/b".to_string()), (3, "/b".to_string())]);
    table.release_and_grant_next(3, &keys(&["/b"]), &mut next).unwrap();
    assert!(table.grant_initial_heads().is_empty());
}

#[test]
fn locks_that_are_not_held_are_not_released() {
    let mut table = LockTable::new();
    table.enqueue(1, &keys(&["/a"]));
    table.enqueue(2, &keys(&["/a"]));
    let mut next = Vec::new();
    match lock_fault(table.release_and_grant_next(2, &keys(&["/a"]), &mut next)) {
        LockFault::NotHead { tx_id, key, head } => {
            assert_eq!((tx_id, key.as_str(), head), (2, "/a", 1));
        }
        _ => panic!("another fault"),
    }
    match lock_fault(table.release_and_grant_next(1, &keys(&["/z"]), &mut next)) {
        LockFault::MissingQueue { key } => assert_eq!(key.as_str(), "/z"),
        _ => panic!("another fault"),
    }
    assert!(next.is_empty());
}

#[test]
fn a_wait_ends_with_the_last_lock() {
    let mut wait = LockWait::new(4, &keys(&["/a", "/b"]));
    assert!(!wait.is_done());
    wait.on_grant(&grant("/b")).unwrap();
    assert!(!wait.is_done());
    assert!(matches!(
        lock_fault(wait.on_grant(&grant("/b"))),
        LockFault::DuplicateGrant { tx_id: 4, .. }
    ));
    assert!(matches!(
        lock_fault(wait.on_grant(&grant("/c"))),
        LockFault::UnexpectedGrant { tx_id: 4, .. }
    ));
    wait.on_grant(&grant("/a")).unwrap();
    assert!(wait.is_done());
    assert!(LockWait::new(4, &keys(&[])).is_done());
}

// With two shards, "/d" is on shard 0, and "/d/b" on shard 1.

fn message(from_shard: u64, paths: &[(&str, ReadValue)]) -> LocalReadResult {
    let mut reads = OrdMap::new();
    for (path, value) in paths {
        reads.insert(key(path), *value);
    }
    LocalReadResult {
        batch_id: 7,
        tx_id: 1,
        phase: ReadPhase::Calvin,
        from_shard,
        status: LocalReadStatus::Success,
        reads,
    }
}

fn collector(phase: ReadPhase) -> ReadCollector {
    let mut sources = OrdSet::new();
    sources.insert(0);
    sources.insert(1);
    let mut local = OrdMap::new();
    local.insert(key("/d"), ReadValue::Present(Inode::directory(0)));
    ReadCollector::new(
        phase,
        7,
        &tx(1, 0, FsOp::Create { path: key("/d/b") }),
        ShardLayout::new(2),
        0,
        &sources,
        local,
    )
}

#[test]
fn reads_come_together() {
    let mut gathering = collector(ReadPhase::Calvin);
    assert!(!gathering.is_done());
    gathering.offer(message(1, &[("/d/b", ReadValue::Missing)])).unwrap();
    assert!(gathering.is_done());
    let (reads, count) = gathering.finish().unwrap();
    assert_eq!((reads.len(), count), (2, 1));
    assert_eq!(reads.get(&key("/d/b")), Some(&ReadValue::Missing));
    assert!(matches!(
        batch_fault(collector(ReadPhase::Calvin).finish()),
        BatchFault::FullReadsMismatch { tx_id: 1, phase: ReadPhase::Calvin, .. }
    ));
}

#[test]
fn messages_that_do_not_belong_are_refused() {
    let good = || message(1, &[("/d/b", ReadValue::Missing)]);
    let refuse = |msg: LocalReadResult| batch_fault(collector(ReadPhase::Calvin).offer(msg));
    let mut msg = good();
    msg.tx_id = 2;
    assert!(matches!(
        refuse(msg),
        BatchFault::ReadMisrouted { tx_id: 1, got_tx: 2, batch_id: 7, .. }
    ));
    let mut msg = good();
    msg.phase = ReadPhase::SccEffect;
    assert!(matches!(
        refuse(msg),
        BatchFault::ReadMisrouted { got_phase: ReadPhase::SccEffect, .. }
    ));
    let mut msg = good();
    msg.status = LocalReadStatus::SpeculationFailed;
    assert!(matches!(
        refuse(msg),
        BatchFault::ReadNotServed { tx_id: 1, from_shard: 1, .. }
    ));
    assert!(matches!(
        refuse(message(5, &[])),
        BatchFault::ReadUnexpected { tx_id: 1, from_shard: 5, .. }
    ));
    match refuse(message(1, &[("/d", ReadValue::Missing)])) {
        BatchFault::ReadKeysMismatch { expected, found, .. } => {
            assert!(expected.same_as(&keys(&["/d/b"])));
            assert!(found.same_as(&keys(&["/d"])));
        }
        _ => panic!("another fault"),
    }
    let mut gathering = collector(ReadPhase::Calvin);
    gathering.offer(good()).unwrap();
    assert!(matches!(
        batch_fault(gathering.offer(good())),
        BatchFault::ReadTwice { tx_id: 1, from_shard: 1, .. }
    ));
}

#[test]
fn a_key_is_read_once() {
    let mut sources = OrdSet::new();
    sources.insert(1);
    let mut local = OrdMap::new();
    local.insert(key("/d/b"), ReadValue::Missing);
    let mut gathering = ReadCollector::new(
        ReadPhase::Calvin,
        7,
        &tx(1, 0, FsOp::Create { path: key("/d/b") }),
        ShardLayout::new(2),
        0,
        &sources,
        local,
    );
    match batch_fault(gathering.offer(message(1, &[("/d/b", ReadValue::Missing)]))) {
        BatchFault::ReadKeyTwice { key, .. } => assert_eq!(key.as_str(), "/d/b"),
        _ => panic!("another fault"),
    }
}

#[test]
fn a_locked_transaction_runs_step_by_step() {
    let layout = ShardLayout::new(2);
    let create = tx(1, 0, FsOp::Create { path: key("/d/b") });
    let batch = Batch { batch_id: 7, txs: vec![create.clone()] };
    let mut run = CalvinBatch::begin(&batch, layout, 0).unwrap();
    let step = run.take_in(&create).unwrap();
    assert!(step.responsible);
    let work = step.work.unwrap();
    assert!(work.active);
    assert_eq!(work.result_shard, 0);
    assert!(work.local_keys.same_as(&keys(&["/d"])));
    assert_eq!(grants(&run.start()), vec![(1, "/d".to_string())]);
    assert!(!run.is_done());

    let (task, action) = LockedRun::begin(run.worker(&create, &work), &work.local_keys);
    assert!(matches!(action, LockedAction::AwaitGrant));
    let (task, action) = task.on_grant(&grant("/d")).unwrap();
    match action {
        LockedAction::Read(wanted) => assert!(wanted.same_as(&keys(&["/d"]))),
        _ => panic!("it did not read"),
    }
    let mut local = OrdMap::new();
    local.insert(key("/d"), ReadValue::Present(Inode::directory(4)));
    let (task, action) = task.on_reads(local).unwrap();
    match action {
        LockedAction::Send(msg, targets) => {
            assert_eq!(targets, vec![1]);
            assert_eq!((msg.batch_id, msg.tx_id, msg.from_shard), (7, 1, 0));
            assert_eq!(msg.reads.len(), 1);
        }
        _ => panic!("it did not send"),
    }
    let (task, action) = task.on_sent().unwrap();
    assert!(matches!(action, LockedAction::AwaitMessage));
    let (task, action) = task.on_message(message(1, &[("/d/b", ReadValue::Missing)])).unwrap();
    match action {
        LockedAction::Write(writes) => {
            assert_eq!(writes.len(), 1);
            assert!(matches!(
                &writes[0],
                WriteOp::Put { key, value } if key.as_str() == "/d" && value.child_count == 5
            ));
        }
        _ => panic!("it did not write"),
    }
    let result = task.on_written();
    assert_eq!(result, TxResult::Success);
    let (record, answers) = completion(&create, result, work.result_shard, 0);
    assert!(answers);
    let mut next = Vec::new();
    run.on_outcome(1, &work.local_keys, Ok(Some(record)), &mut next).unwrap();
    assert!(next.is_empty());
    assert!(run.is_done());
    let summary = run.finish();
    assert_eq!((summary.batch_id, summary.shard_id), (7, 0));
    assert_eq!(summary.tx_results, vec![record]);
}

#[test]
fn a_shard_that_only_serves_reads_is_passive() {
    let layout = ShardLayout::new(2);
    let stat = tx(1, 0, FsOp::Stat { path: key("/d") });
    let batch = Batch { batch_id: 7, txs: vec![stat.clone()] };
    let mut away = CalvinBatch::begin(&batch, layout, 1).unwrap();
    let step = away.take_in(&stat).unwrap();
    assert!(!step.responsible);
    assert!(step.work.is_none());
    assert!(away.is_done());

    let mut home = CalvinBatch::begin(&batch, layout, 0).unwrap();
    let work = home.take_in(&stat).unwrap().work.unwrap();
    let mut worker = home.worker(&stat, &work);
    worker.active = OrdSet::new();
    let (task, _) = LockedRun::begin(worker, &work.local_keys);
    let (task, _) = task.on_grant(&grant("/d")).unwrap();
    let mut local = OrdMap::new();
    local.insert(key("/d"), ReadValue::Missing);
    let (task, action) = task.on_reads(local).unwrap();
    assert!(matches!(action, LockedAction::Send(_, targets) if targets.is_empty()));
    let (_, action) = task.on_sent().unwrap();
    assert!(matches!(action, LockedAction::Passive));
}

#[test]
fn a_full_directory_stops_a_locked_transaction() {
    let layout = ShardLayout::new(1);
    let create = tx(1, 0, FsOp::Create { path: key("/d/b") });
    let batch = Batch { batch_id: 7, txs: vec![create.clone()] };
    let mut run = CalvinBatch::begin(&batch, layout, 0).unwrap();
    let work = run.take_in(&create).unwrap().work.unwrap();
    let (task, _) = LockedRun::begin(run.worker(&create, &work), &work.local_keys);
    let (task, _) = task.on_grant(&grant("/d")).unwrap();
    let (task, _) = task.on_grant(&grant("/d/b")).unwrap();
    let mut local = OrdMap::new();
    local.insert(key("/d"), ReadValue::Present(Inode::directory(u64::MAX)));
    local.insert(key("/d/b"), ReadValue::Missing);
    let (task, _) = task.on_reads(local).unwrap();
    let (_, action) = task.on_sent().unwrap();
    assert!(matches!(action, LockedAction::Overflow));
}

#[test]
fn a_failed_worker_fails_its_batch() {
    let layout = ShardLayout::new(1);
    let stat = tx(1, 0, FsOp::Stat { path: key("/d") });
    let batch = Batch { batch_id: 7, txs: vec![stat.clone()] };
    let mut run = CalvinBatch::begin(&batch, layout, 0).unwrap();
    let work = run.take_in(&stat).unwrap().work.unwrap();
    let mut next = Vec::new();
    let outcome = run.on_outcome(1, &work.local_keys, Err(Error::MissingPeer(3)), &mut next);
    assert!(matches!(outcome, Err(Error::MissingPeer(3))));
    let again = run.on_outcome(1, &work.local_keys, Ok(None), &mut next);
    assert!(matches!(lock_fault(again), LockFault::MissingQueue { .. }));
}
