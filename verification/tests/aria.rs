use calvinfs_demo::collections::{OrdMap, OrdSet};
use calvinfs_demo::engine::aria::aria_result_shard;
use calvinfs_demo::engine::aria::batch::AriaBatch;
use calvinfs_demo::engine::aria::coordinator::{
    add_aria_read, aria_read_keys_for_tx, aria_read_plan, aria_stage_outcomes, check_aria_read,
};
use calvinfs_demo::engine::aria::fallback::{
    aria_fallback_active_shards, aria_fallback_completion, AriaFallbackBatch,
    AriaFallbackCompletion,
};
use calvinfs_demo::engine::aria::registry::{
    failures_from_wire, failures_to_wire, AriaBatchRegistry,
};
use calvinfs_demo::engine::aria::run::AriaRun;
use calvinfs_demo::engine::reorder::fallback_batch_from_failed_indices_with_derived_sets;
use calvinfs_demo::engine::AriaStageOutcome;
use calvinfs_demo::error::BatchFault;
use calvinfs_demo::executor::derive_read_write_set;
use calvinfs_demo::model::{
    Batch, FsOp, Inode, Key, OrderedTx, ReadValue, TxId, TxResult, TxResultRecord, WriteOp,
};
use calvinfs_demo::router::ShardLayout;
use calvinfs_demo::storage::RedbInMemoryInodeStore;
use calvinfs_demo::{Error, Result};

// With two shards, "/", "/b", "/d" and "/a/x" are on shard 0; "/a", "/c" and "/d/b" on
// shard 1.

fn key(path: &str) -> Key {
    Key::new(path.to_string()).unwrap()
}

fn tx(tx_id: TxId, batch_index: u32, op: FsOp) -> OrderedTx {
    let (read_set, write_set) = derive_read_write_set(&op).unwrap();
    OrderedTx { tx_id, batch_index, op, read_set, write_set }
}

fn create(path: &str) -> FsOp {
    FsOp::Create { path: key(path) }
}

fn fault<T>(r: Result<T>) -> BatchFault {
    match r {
        Err(Error::InvalidBatch(fault)) => fault,
        _ => panic!("nothing was refused"),
    }
}

fn outcome(tx_index: usize, tx_id: TxId, writes: Vec<WriteOp>) -> AriaStageOutcome {
    AriaStageOutcome {
        batch_id: 7,
        tx_index,
        tx_id,
        from_shard: tx_id % 2,
        result: TxResult::Success,
        writes,
        is_result_shard: tx_id % 2 == 0,
    }
}

fn put(path: &str) -> WriteOp {
    WriteOp::Put { key: key(path), value: Inode::file() }
}

fn indices(list: &[usize]) -> OrdSet<usize> {
    let mut set = OrdSet::new();
    for index in list {
        set.insert(*index);
    }
    set
}

fn listed(set: &OrdSet<usize>) -> Vec<usize> {
    (0..set.len()).map(|i| *set.at(i)).collect()
}

/// A registry of shard 0, and its store.
fn shard() -> (AriaBatchRegistry, RedbInMemoryInodeStore, ShardLayout) {
    (AriaBatchRegistry::new(), RedbInMemoryInodeStore::new().unwrap(), ShardLayout::new(2))
}

#[test]
fn the_id_picks_the_result_shard() {
    assert_eq!(aria_result_shard(0, 4), 0);
    assert_eq!(aria_result_shard(6, 4), 2);
    assert_eq!(aria_result_shard(u64::MAX, 4), 3);
}

#[test]
fn reads_are_planned_by_owner() {
    let layout = ShardLayout::new(2);
    let mut t = tx(1, 0, create("/d/b"));
    t.read_set = OrdSet::new();
    assert_eq!(aria_read_keys_for_tx(&t).unwrap().len(), 2);
    let plan: Vec<(String, u64)> = aria_read_plan(&layout, &t)
        .unwrap()
        .into_iter()
        .map(|(key, owner)| (key.to_text(), owner))
        .collect();
    assert_eq!(plan, vec![("/d".to_string(), 0), ("/d/b".to_string(), 1)]);
    check_aria_read(1, &key("/d"), key("/d")).unwrap();
    match fault(check_aria_read(1, &key("/d"), key("/e"))) {
        BatchFault::AriaReadMismatch { tx_id, key, found } => {
            assert_eq!((tx_id, key.as_str(), found.as_str()), (1, "/d", "/e"));
        }
        _ => panic!("another fault"),
    }
    let mut reads = OrdMap::new();
    add_aria_read(&mut reads, 1, &key("/d"), ReadValue::Missing).unwrap();
    assert!(matches!(
        fault(add_aria_read(&mut reads, 1, &key("/d"), ReadValue::Missing)),
        BatchFault::AriaReadTwice { tx_id: 1, .. }
    ));
}

#[test]
fn a_run_asks_for_one_key_after_the_other() {
    let layout = ShardLayout::new(2);
    let mut run = AriaRun::begin(layout, 0, 7, 3, tx(2, 3, create("/d/b"))).unwrap();
    let (asked, owner) = run.next().unwrap();
    assert_eq!((asked.as_str(), owner), ("/d", 0));
    match fault(run.on_value(key("/d/b"), ReadValue::Missing)) {
        BatchFault::AriaReadMismatch { tx_id, key, found } => {
            assert_eq!((tx_id, key.as_str(), found.as_str()), (2, "/d", "/d/b"));
        }
        _ => panic!("another fault"),
    }
    assert_eq!(run.next().unwrap().0.as_str(), "/d");
    run.on_value(key("/d"), ReadValue::Present(Inode::directory(0))).unwrap();
    let (asked, owner) = run.next().unwrap();
    assert_eq!((asked.as_str(), owner), ("/d/b", 1));
    run.on_value(key("/d/b"), ReadValue::Missing).unwrap();
    assert!(run.next().is_none());
    let staged = run.finish().unwrap();
    let targets: Vec<u64> = staged.iter().map(|(target, _)| *target).collect();
    assert_eq!(targets, vec![0, 1]);
    for (_, outcome) in &staged {
        assert_eq!((outcome.batch_id, outcome.tx_index, outcome.tx_id), (7, 3, 2));
        assert_eq!((outcome.from_shard, outcome.result), (0, TxResult::Success));
    }
    let mut full = AriaRun::begin(layout, 0, 7, 3, tx(2, 3, create("/d/b"))).unwrap();
    full.on_value(key("/d"), ReadValue::Present(Inode::directory(u64::MAX))).unwrap();
    full.on_value(key("/d/b"), ReadValue::Missing).unwrap();
    assert!(full.finish().is_none());
}

#[test]
fn outcomes_go_to_those_concerned() {
    let layout = ShardLayout::new(2);
    let mut reads = OrdMap::new();
    reads.insert(key("/d"), ReadValue::Present(Inode::directory(0)));
    reads.insert(key("/d/b"), ReadValue::Missing);
    let t = tx(2, 0, create("/d/b"));
    let staged = aria_stage_outcomes(&layout, 0, 7, 0, &t, &reads).unwrap();
    assert_eq!(staged.len(), 2);
    assert_eq!(staged[0].0, 0);
    assert!(staged[0].1.is_result_shard);
    assert_eq!(staged[0].1.writes[0].key().as_str(), "/d");
    assert_eq!(staged[1].0, 1);
    assert!(!staged[1].1.is_result_shard);
    assert_eq!(staged[1].1.writes[0].key().as_str(), "/d/b");
    assert_eq!(staged[1].1.result, TxResult::Success);
    let refused = tx(2, 0, FsOp::Stat { path: key("/d/b") });
    let mut reads = OrdMap::new();
    reads.insert(key("/d/b"), ReadValue::Missing);
    let staged = aria_stage_outcomes(&layout, 0, 7, 0, &refused, &reads).unwrap();
    assert_eq!(staged.len(), 1);
    assert_eq!((staged[0].0, staged[0].1.result), (0, TxResult::NotFound));
    let mut reads = OrdMap::new();
    reads.insert(key("/d"), ReadValue::Present(Inode::directory(u64::MAX)));
    reads.insert(key("/d/b"), ReadValue::Missing);
    assert!(aria_stage_outcomes(&layout, 0, 7, 0, &t, &reads).is_none());
}

#[test]
fn a_snapshot_is_of_the_keys_of_a_shard() {
    let (mut registry, mut store, layout) = shard();
    store.apply_writes_atomically(&vec![put("/b")]).unwrap();
    let value = registry.read_snapshot(&store, &layout, 0, 7, 0, &key("/b")).unwrap();
    assert_eq!(value, ReadValue::Present(Inode::file()));
    let value = registry.read_snapshot(&store, &layout, 0, 7, 0, &key("/d")).unwrap();
    assert_eq!(value, ReadValue::Missing);
    match fault(registry.read_snapshot(&store, &layout, 0, 7, 0, &key("/c"))) {
        BatchFault::AriaReadMisrouted { key, shard_id, owner } => {
            assert_eq!((key.as_str(), shard_id, owner), ("/c", 0, 1));
        }
        _ => panic!("another fault"),
    }
}

#[test]
fn outcomes_that_do_not_belong_are_refused() {
    let (mut registry, _, layout) = shard();
    let mut stage = |outcome| registry.stage_outcome(&layout, 0, outcome);
    let mut wrong = outcome(0, 2, vec![]);
    wrong.from_shard = 1;
    assert!(matches!(
        fault(stage(wrong)),
        BatchFault::AriaStageSender { tx_id: 2, from_shard: 1, expected: 0 }
    ));
    let mut wrong = outcome(0, 2, vec![]);
    wrong.is_result_shard = false;
    assert!(matches!(
        fault(stage(wrong)),
        BatchFault::AriaStageFlag { tx_id: 2, is_result_shard: false, expected: true, shard_id: 0 }
    ));
    assert!(matches!(
        fault(stage(outcome(0, 2, vec![put("/b"), put("/c")]))),
        BatchFault::AriaWriteMisrouted { shard_id: 0, owner: 1, .. }
    ));
    stage(outcome(0, 2, vec![put("/b")])).unwrap();
    assert!(matches!(
        fault(stage(outcome(0, 2, vec![]))),
        BatchFault::AriaStagedTwice { batch_id: 7, tx_index: 0, shard_id: 0 }
    ));
}

#[test]
fn reports_come_once_from_every_shard() {
    let (mut registry, _, _) = shard();
    assert!(!registry.execution_done(7, 2));
    registry.record_execution_done(7, 0, 2).unwrap();
    assert!(!registry.execution_done(7, 2));
    assert!(matches!(
        fault(registry.record_execution_done(7, 0, 2)),
        BatchFault::AriaDoneTwice { batch_id: 7, from_shard: 0 }
    ));
    assert!(matches!(
        fault(registry.record_execution_done(7, 2, 2)),
        BatchFault::AriaReportShard { batch_id: 7, from_shard: 2, shard_count: 2 }
    ));
    registry.record_execution_done(7, 1, 2).unwrap();
    assert!(registry.execution_done(7, 2));
    assert!(!registry.execution_done(8, 2));
    registry.record_local_failures(7, 1, indices(&[2, 5]), 2).unwrap();
    assert!(registry.failure_reports(7, 2).is_none());
    assert!(matches!(
        fault(registry.record_local_failures(7, 1, indices(&[]), 2)),
        BatchFault::AriaFailuresTwice { batch_id: 7, from_shard: 1 }
    ));
    assert!(matches!(
        fault(registry.record_local_failures(7, 9, indices(&[]), 2)),
        BatchFault::AriaReportShard { from_shard: 9, .. }
    ));
    registry.record_local_failures(7, 0, indices(&[1, 5]), 2).unwrap();
    assert_eq!(listed(&registry.failure_reports(7, 2).unwrap()), vec![1, 5]);
    registry.record_local_failures(8, 0, indices(&[1, 5]), 2).unwrap();
    registry.record_local_failures(8, 1, indices(&[2, 5]), 2).unwrap();
    assert_eq!(listed(&registry.failure_reports(8, 2).unwrap()), vec![1, 2, 5]);
    registry.cleanup_batch(7);
    assert!(!registry.execution_done(7, 2));
    assert!(registry.failure_reports(7, 2).is_none());
}

#[test]
fn whoever_uses_what_an_earlier_one_wrote_loses() {
    let (mut registry, store, layout) = shard();
    registry.read_snapshot(&store, &layout, 0, 7, 0, &key("/d")).unwrap();
    registry.read_snapshot(&store, &layout, 0, 7, 2, &key("/d")).unwrap();
    registry.read_snapshot(&store, &layout, 0, 7, 3, &key("/b")).unwrap();
    registry.stage_outcome(&layout, 0, outcome(1, 2, vec![put("/d")])).unwrap();
    registry.stage_outcome(&layout, 0, outcome(4, 6, vec![put("/b")])).unwrap();
    registry.stage_outcome(&layout, 0, outcome(5, 8, vec![put("/b")])).unwrap();
    assert_eq!(listed(&registry.local_failed_indices(7)), vec![2, 5]);
    assert!(registry.local_failed_indices(8).is_empty());
}

#[test]
fn only_what_stands_is_installed() {
    let (mut registry, mut store, layout) = shard();
    registry.stage_outcome(&layout, 0, outcome(1, 3, vec![put("/d")])).unwrap();
    registry
        .stage_outcome(&layout, 0, outcome(2, 4, vec![WriteOp::Delete { key: key("/d") }, put("/b")]))
        .unwrap();
    registry.stage_outcome(&layout, 0, outcome(0, 2, vec![put("/")])).unwrap();
    let mut records = Vec::new();
    registry
        .install_aria_successes(&mut store, 7, 0, &indices(&[0]), &mut records)
        .unwrap();
    let dump = store.dump().unwrap();
    assert_eq!(dump.len(), 1);
    assert!(dump.contains_key(&key("/b")));
    assert_eq!(
        records,
        vec![TxResultRecord { tx_id: 4, shard_id: 0, result: TxResult::Success }]
    );
}

#[test]
fn failures_survive_the_way() {
    let failed = indices(&[9, 0, 4]);
    assert_eq!(failures_to_wire(&failed), vec![0, 4, 9]);
    assert_eq!(listed(&failures_from_wire(&vec![9, 0, 4, 9])), vec![0, 4, 9]);
}

fn batch(ops: Vec<FsOp>) -> Batch {
    let txs = ops.into_iter().enumerate().map(|(i, op)| tx(i as u64 + 1, i as u32, op)).collect();
    Batch { batch_id: 7, txs }
}

#[test]
fn a_batch_waits_for_all_shards() {
    let (mut registry, mut store, layout) = shard();
    let ops = vec![create("/b"), create("/d"), create("/c")];
    let mut run = AriaBatch::begin(batch(ops), layout, 0).unwrap();
    assert!(!run.responsible(0));
    assert!(run.responsible(1));
    assert_eq!(run.to_run(), vec![1]);
    assert!(!run.has_run());
    assert!(matches!(run.on_run(1, Err(Error::MissingPeer(1))), Err(Error::MissingPeer(1))));
    assert!(!run.has_run());
    run.on_run(1, Ok(())).unwrap();
    assert!(run.has_run());
    assert!(run.failures(&registry).is_none());
    registry.record_execution_done(7, 0, 2).unwrap();
    registry.record_execution_done(7, 1, 2).unwrap();
    registry.stage_outcome(&layout, 0, outcome(1, 2, vec![put("/d")])).unwrap();
    assert!(run.failures(&registry).unwrap().is_empty());
    let mut reorders = OrdMap::new();
    assert!(run.settle(&registry, &mut reorders, &mut store).unwrap().is_none());
    assert!(reorders.is_empty());
    registry.record_local_failures(7, 0, indices(&[]), 2).unwrap();
    registry.record_local_failures(7, 1, indices(&[2]), 2).unwrap();
    let settled = run.settle(&registry, &mut reorders, &mut store).unwrap().unwrap();
    assert_eq!(listed(&settled.failed_indices), vec![2]);
    assert_eq!(settled.results.len(), 1);
    let again = settled.again.unwrap();
    assert_eq!((again.txs.len(), again.txs[0].tx_id, again.txs[0].batch_index), (1, 3, 0));
    assert_eq!(store.dump().unwrap().len(), 1);
    assert_eq!(reorders.get(&7).unwrap().fallback_indices, vec![2]);
    let summary = run.finish(settled.results, Vec::new());
    assert_eq!(summary.tx_results[0].tx_id, 2);
}

#[test]
fn failures_outside_a_batch_are_refused() {
    let (mut registry, mut store, layout) = shard();
    let run = AriaBatch::begin(batch(vec![create("/b")]), layout, 0).unwrap();
    registry.record_local_failures(7, 0, indices(&[5]), 2).unwrap();
    registry.record_local_failures(7, 1, indices(&[]), 2).unwrap();
    let mut reorders = OrdMap::new();
    assert!(matches!(
        fault(run.settle(&registry, &mut reorders, &mut store)),
        BatchFault::FailedOutsideBatch { len: 1, .. }
    ));
}

#[test]
fn sets_are_derived_before_running_again() {
    let mut plain = batch(vec![create("/b"), create("/d/b")]);
    plain.txs[1].read_set = OrdSet::new();
    plain.txs[1].write_set = OrdSet::new();
    let again =
        fallback_batch_from_failed_indices_with_derived_sets(&plain, &indices(&[1])).unwrap();
    assert_eq!(again.txs[0].read_set.len(), 2);
    assert_eq!(again.txs[0].write_set.len(), 2);
}

#[test]
fn a_batch_runs_again_under_locks() {
    let layout = ShardLayout::new(2);
    let again = batch(vec![FsOp::Stat { path: key("/c") }, create("/d/b")]);
    let mut run = AriaFallbackBatch::begin(&again, layout, 0).unwrap();
    assert!(run.take_in(&again.txs[0]).unwrap().is_none());
    let work = run.take_in(&again.txs[1]).unwrap().unwrap();
    assert!(work.is_active && work.is_source);
    assert_eq!(work.result_shard, 0);
    assert_eq!(work.local_keys.len(), 1);
    assert!(aria_fallback_active_shards(&layout, &again.txs[1]).contains(&0));
    assert!(aria_fallback_active_shards(&layout, &again.txs[1]).contains(&1));
    assert_eq!(run.start().len(), 1);
    assert!(!run.is_done());
    let done = aria_fallback_completion(2, work.result_shard, 0, TxResult::NotFound);
    let mut grants = Vec::new();
    run.on_outcome(2, &work.local_keys, Ok(done), &mut grants).unwrap();
    assert!(run.is_done());
    assert_eq!(run.finish().tx_results.len(), 1);
    assert!(matches!(
        aria_fallback_completion(2, 1, 0, TxResult::Success),
        AriaFallbackCompletion::Active { result: TxResult::Success, record: None }
    ));
}

#[test]
fn active_shards_have_to_agree() {
    let layout = ShardLayout::new(2);
    let again = batch(vec![create("/b")]);
    let mut run = AriaFallbackBatch::begin(&again, layout, 0).unwrap();
    let mut grants = Vec::new();
    let active = |result| Ok(AriaFallbackCompletion::Active { result, record: None });
    run.on_outcome(1, &OrdSet::new(), active(TxResult::Success), &mut grants).unwrap();
    assert!(matches!(
        fault(run.on_outcome(1, &OrdSet::new(), active(TxResult::NotFound), &mut grants)),
        BatchFault::AriaDisagreement {
            tx_id: 1,
            first: TxResult::Success,
            second: TxResult::NotFound,
        }
    ));
    run.on_outcome(1, &OrdSet::new(), Ok(AriaFallbackCompletion::Passive), &mut grants).unwrap();
}
