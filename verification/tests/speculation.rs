use calvinfs_demo::collections::{OrdMap, OrdSet};
use calvinfs_demo::engine::reads::LocalReadResult;
use calvinfs_demo::engine::reorder::{
    batch_reorder, failed_indices_from_snapshot, fallback_batch_from_failed_indices,
    install_scc_successes, record_batch_reorder,
};
use calvinfs_demo::engine::scc_batch::SccBatch;
use calvinfs_demo::engine::scc_run::{SccAction, SccRun};
use calvinfs_demo::error::{BatchFault, SpeculationFault};
use calvinfs_demo::executor::{derive_read_write_set, execute_deterministic};
use calvinfs_demo::model::{
    Batch, FsOp, Inode, Key, LocalReadStatus, OrderedTx, ReadPhase, ReadValue, TxId, TxResult,
    WriteOp,
};
use calvinfs_demo::router::ShardLayout;
use calvinfs_demo::scc::delta::changed_count;
use calvinfs_demo::scc::{
    apply_delta_to_state, build_scc_batch_plan, check_success_path_condition, conflict_mask,
    filter_delta_to_keys, output_to_delta, predicted_path, CommitSequence, CommitSlotState,
    ConflictMask, DagRuntime, DeltaOp, InodeIntegerField, PathId, SccPhase, TxDelta,
};
use calvinfs_demo::storage::RedbInMemoryInodeStore;
use calvinfs_demo::{Error, Result};
use std::sync::Arc;

fn key(path: &str) -> Key {
    Key::new(path.to_string()).unwrap()
}

fn keys(paths: &[&str]) -> OrdSet<Key> {
    let mut set = OrdSet::new();
    for path in paths {
        set.insert(key(path));
    }
    set
}

fn tx(tx_id: TxId, batch_index: u32, op: FsOp) -> OrderedTx {
    let (read_set, write_set) = derive_read_write_set(&op).unwrap();
    OrderedTx { tx_id, batch_index, op, read_set, write_set }
}

fn create(path: &str) -> FsOp {
    FsOp::Create { path: key(path) }
}

fn mkdir(path: &str) -> FsOp {
    FsOp::Mkdir { path: key(path) }
}

fn rename(src: &str, dst: &str) -> FsOp {
    FsOp::Rename { src: key(src), dst: key(dst) }
}

fn batch(ops: Vec<FsOp>) -> Batch {
    let txs = ops.into_iter().enumerate().map(|(i, op)| tx(i as u64 + 1, i as u32, op)).collect();
    Batch { batch_id: 7, txs }
}

fn fault<T>(r: Result<T>) -> BatchFault {
    match r {
        Err(Error::InvalidBatch(fault)) => fault,
        _ => panic!("nothing was refused"),
    }
}

fn reads(values: Vec<(&str, ReadValue)>) -> OrdMap<Key, ReadValue> {
    let mut map = OrdMap::new();
    for (path, value) in values {
        map.insert(key(path), value);
    }
    map
}

fn dir(n: u64) -> ReadValue {
    ReadValue::Present(Inode::directory(n))
}

fn delta(ops: Vec<DeltaOp>) -> CommitSlotState {
    CommitSlotState::Delta(Arc::new(TxDelta { ops }))
}

fn put(path: &str, value: Inode) -> DeltaOp {
    DeltaOp::Put { key: key(path), value }
}

fn grow(path: &str, delta: i64) -> DeltaOp {
    DeltaOp::AddIntegerField { key: key(path), field: InodeIntegerField::ChildCount, delta }
}

#[test]
fn conflicts_are_classified() {
    let mask = |a: FsOp, b: FsOp| conflict_mask(&a, &b).unwrap();
    assert_eq!(mask(create("/d/a"), create("/d/a")), ConflictMask::SAME_TARGET);
    assert_eq!(mask(create("/d/a"), create("/e/b")), ConflictMask::INDEPENDENT_SUBTREE);
    assert_eq!(mask(mkdir("/d"), create("/d/x/y")), ConflictMask::ANCESTOR_DESCENDANT);
    assert_eq!(mask(mkdir("/"), create("/d/a")), ConflictMask::ROOT_INVOLVED);
    assert_eq!(mask(rename("/a/b", "/c/d"), create("/e/f")), ConflictMask::RENAME_INVOLVED);
    assert_eq!(mask(rename("/a/b", "/c/d"), mkdir("/")), ConflictMask::ROOT_INVOLVED);
    assert_eq!(predicted_path(&create("/d")), PathId::CreateSuccess);
    assert_eq!(predicted_path(&rename("/a", "/b")), PathId::RenameSuccess);
    let bits: Vec<u64> = [
        ConflictMask::SAME_TARGET,
        ConflictMask::SAME_PARENT_DIFFERENT_TARGET,
        ConflictMask::LHS_TARGET_IS_RHS_PARENT,
        ConflictMask::ANCESTOR_DESCENDANT,
        ConflictMask::ROOT_INVOLVED,
        ConflictMask::INDEPENDENT_SUBTREE,
        ConflictMask::RENAME_INVOLVED,
    ]
    .into_iter()
    .map(|m| m.bits())
    .collect();
    for i in 0..bits.len() {
        for j in 0..i {
            assert_ne!(bits[i], bits[j]);
        }
    }
}

#[test]
fn the_graph_lets_each_transaction_go_on_once() {
    let plan = build_scc_batch_plan(&batch(vec![mkdir("/d"), create("/d/a"), create("/e/x")]));
    let plan = plan.unwrap();
    let mut graph = DagRuntime::new(&plan.effect);
    assert_eq!(graph.start().unwrap(), vec![0, 2]);
    assert_eq!(graph.finish_vertex(2).unwrap(), Vec::<usize>::new());
    assert_eq!(graph.finish_vertex(0).unwrap(), vec![1]);
    assert!(matches!(fault(graph.finish_vertex(0)), BatchFault::DagVertexFinished { index: 0 }));
    assert!(matches!(
        fault(graph.finish_vertex(9)),
        BatchFault::DagVertexOutOfRange { index: 9 }
    ));
}

#[test]
fn a_slot_becomes_terminal_once() {
    let mut slots = CommitSequence::new(2);
    assert_eq!(slots.len(), 2);
    assert!(slots.wait_terminal(0).unwrap().is_none());
    slots.set_terminal_once(0, CommitSlotState::NoOp).unwrap();
    assert!(matches!(slots.wait_terminal(0).unwrap(), Some(CommitSlotState::NoOp)));
    assert!(matches!(
        fault(slots.set_terminal_once(0, CommitSlotState::Failed)),
        BatchFault::SlotAlreadySet { index: 0 }
    ));
    assert!(matches!(
        fault(slots.set_terminal_once(1, CommitSlotState::Pending)),
        BatchFault::SlotBackToPending { index: 1 }
    ));
    assert!(matches!(
        fault(slots.set_terminal_once(2, CommitSlotState::NoOp)),
        BatchFault::SlotOutOfRange { index: 2, len: 2 }
    ));
    assert!(matches!(
        fault(slots.wait_terminal(5)),
        BatchFault::SlotOutOfRange { index: 5, len: 2 }
    ));
    let snapshot = slots.terminal_snapshot();
    assert!(matches!(snapshot[0], CommitSlotState::NoOp));
    assert!(matches!(snapshot[1], CommitSlotState::Pending));
}

#[test]
fn a_delta_says_what_changed() {
    let t = tx(1, 0, create("/d/a"));
    let before = reads(vec![("/d", dir(41)), ("/d/a", ReadValue::Missing)]);
    let output = execute_deterministic(&t, &before);
    let change = output_to_delta(&t, &before, output).unwrap();
    assert_eq!(change.ops.len(), 2);
    assert!(matches!(
        &change.ops[0],
        DeltaOp::AddIntegerField { key, delta: 1, .. } if key.as_str() == "/d"
    ));
    assert!(matches!(&change.ops[1], DeltaOp::Put { key, .. } if key.as_str() == "/d/a"));
    let local = filter_delta_to_keys(&change, &keys(&["/d/a"]));
    assert_eq!(local.ops.len(), 1);
    assert_eq!(local.ops[0].key().as_str(), "/d/a");
    let mut state = OrdMap::new();
    state.insert(key("/d"), Inode::directory(7));
    apply_delta_to_state(&mut state, &change).unwrap();
    assert_eq!(state.get(&key("/d")), Some(&Inode::directory(8)));
    assert_eq!(state.get(&key("/d/a")), Some(&Inode::file()));
}

#[test]
fn deltas_of_nothing_are_refused() {
    let t = tx(1, 0, create("/d/a"));
    let before = reads(vec![("/d", ReadValue::Missing), ("/d/a", ReadValue::Missing)]);
    let output = execute_deterministic(&t, &before);
    assert!(matches!(
        fault(output_to_delta(&t, &before, output)),
        BatchFault::DeltaOfFailure { tx_id: 1, result: TxResult::NotFound }
    ));
    let before = reads(vec![("/d", dir(0)), ("/d/a", ReadValue::Missing)]);
    let mut stray = execute_deterministic(&t, &before);
    stray.writes.push(WriteOp::Delete { key: key("/z") });
    match fault(output_to_delta(&t, &before, stray)) {
        BatchFault::OutsideWriteSet { tx_id, key } => assert_eq!((tx_id, key.as_str()), (1, "/z")),
        _ => panic!("another fault"),
    }
    let output = execute_deterministic(&t, &before);
    assert!(matches!(
        fault(output_to_delta(&t, &OrdMap::new(), output)),
        BatchFault::MissingDeltaRead
    ));
    let mut jump = execute_deterministic(&t, &before);
    jump.writes[0] = WriteOp::Put { key: key("/d"), value: Inode::directory(u64::MAX) };
    assert!(matches!(
        fault(output_to_delta(&t, &before, jump)),
        BatchFault::CountDeltaOutOfRange { .. }
    ));
}

#[test]
fn deltas_that_do_not_fit_are_refused() {
    let mut state = OrdMap::new();
    state.insert(key("/f"), Inode::file());
    state.insert(key("/d"), Inode::directory(0));
    let mut apply = |op| apply_delta_to_state(&mut state, &TxDelta { ops: vec![op] });
    assert!(matches!(
        fault(apply(grow("/x", 1))),
        BatchFault::CountDeltaOnMissing { .. }
    ));
    assert!(matches!(fault(apply(grow("/f", 1))), BatchFault::CountDeltaOnFile { .. }));
    assert!(matches!(fault(apply(grow("/d", -1))), BatchFault::CountDeltaUnderflow { .. }));
    apply(grow("/d", 3)).unwrap();
    assert_eq!(state.get(&key("/d")), Some(&Inode::directory(3)));
}

#[test]
fn a_condition_is_that_of_success() {
    let t = tx(1, 0, create("/d/a"));
    let holds = |values| {
        check_success_path_condition(&t, PathId::CreateSuccess, &reads(values)).unwrap()
    };
    assert!(holds(vec![("/d", dir(0)), ("/d/a", ReadValue::Missing)]));
    assert!(!holds(vec![("/d", dir(0)), ("/d/a", ReadValue::Present(Inode::file()))]));
    assert!(!holds(vec![("/d", ReadValue::Missing), ("/d/a", ReadValue::Missing)]));
    let before = reads(vec![("/d", dir(0)), ("/d/a", ReadValue::Missing)]);
    assert!(!check_success_path_condition(&t, PathId::MkdirSuccess, &before).unwrap());
    let nothing = reads(vec![("/", ReadValue::Missing)]);
    let file = tx(1, 0, create("/"));
    assert!(!check_success_path_condition(&file, PathId::CreateSuccess, &nothing).unwrap());
    let root = tx(1, 0, mkdir("/"));
    assert!(check_success_path_condition(&root, PathId::MkdirSuccess, &nothing).unwrap());
}

#[test]
fn orders_note_what_failed() {
    let snapshot = vec![CommitSlotState::NoOp, CommitSlotState::Failed, delta(vec![])];
    let failed = failed_indices_from_snapshot(&snapshot);
    assert_eq!(failed.len(), 1);
    assert!(failed.contains(&1));
    let record = batch_reorder(7, 3, &failed).unwrap();
    assert_eq!(record.speculative_success_indices, vec![0, 2]);
    assert_eq!(record.fallback_indices, vec![1]);
    match fault(batch_reorder(7, 1, &failed)) {
        BatchFault::FailedOutsideBatch { failed, len } => assert_eq!((failed.len(), len), (1, 1)),
        _ => panic!("another fault"),
    }
    let mut reorders = OrdMap::new();
    record_batch_reorder(&mut reorders, 7, 3, &failed).unwrap();
    assert!(matches!(
        fault(record_batch_reorder(&mut reorders, 7, 3, &failed)),
        BatchFault::DuplicateBatchReorder { batch_id: 7 }
    ));
    let again = fallback_batch_from_failed_indices(
        &batch(vec![mkdir("/a"), mkdir("/b"), mkdir("/c")]),
        &failed,
    );
    assert_eq!(again.batch_id, 7);
    assert_eq!(again.txs.len(), 1);
    assert_eq!((again.txs[0].tx_id, again.txs[0].batch_index), (2, 0));
}

#[test]
fn only_what_succeeded_is_installed() {
    let mut store = RedbInMemoryInodeStore::new().unwrap();
    let snapshot = vec![
        delta(vec![put("/d", Inode::directory(0))]),
        CommitSlotState::Failed,
        CommitSlotState::NoOp,
        delta(vec![grow("/d", 2)]),
    ];
    let mut failed = OrdSet::new();
    failed.insert(1);
    install_scc_successes(&mut store, &snapshot, &failed).unwrap();
    assert_eq!(store.dump().unwrap().get(&key("/d")), Some(&Inode::directory(2)));
    assert!(matches!(
        fault(install_scc_successes(&mut store, &snapshot, &OrdSet::new())),
        BatchFault::SlotFailedUnlisted { index: 1 }
    ));
    assert!(matches!(
        fault(install_scc_successes(&mut store, &vec![CommitSlotState::Pending], &failed)),
        BatchFault::SlotStillPending { index: 0 }
    ));
}

/// The only worker of a batch on one shard, with what it reads.
fn alone(ops: Vec<FsOp>, index: usize) -> (SccBatch, SccRun, OrdMap<Key, ReadValue>) {
    let run = SccBatch::begin(batch(ops), ShardLayout::new(1), 0).unwrap();
    assert!(run.responsible(index).unwrap());
    let store = RedbInMemoryInodeStore::new().unwrap();
    let base = store.read_many(&run.base_keys()).unwrap();
    let worker = run.worker(index).unwrap();
    assert!(worker.targets().is_empty());
    (run, SccRun::begin(worker), base)
}

#[test]
fn a_speculating_transaction_runs_step_by_step() {
    let (mut run, task, base) = alone(vec![mkdir("/"), mkdir("/d")], 1);
    assert_eq!(run.start().unwrap().effect, vec![0]);
    let due = |task: SccRun, run: &SccBatch| {
        task.on_due(run.writes_by_tx(), &base, run.commits()).unwrap()
    };
    let (task, action) = due(task, &run);
    assert!(matches!(action, SccAction::AwaitSlot(0)));
    let told = run.on_end(0, delta(vec![put("/", Inode::directory(0))]), None).unwrap();
    assert_eq!((told.effect, told.condition), (vec![1], vec![1]));
    let (task, action) = due(task, &run);
    match action {
        SccAction::Send(msg, targets) => {
            assert!(targets.is_empty());
            assert_eq!(msg.phase, ReadPhase::SccEffect);
            assert_eq!(msg.reads.get(&key("/")), Some(&dir(0)));
        }
        _ => panic!("it did not send"),
    }
    let (task, action) = task.on_sent().unwrap();
    assert!(matches!(action, SccAction::Stage));
    let (task, action) = task.on_executed().unwrap();
    assert!(matches!(action, SccAction::AwaitCondition(2)));
    let (_, action) = due(task, &run);
    match action {
        SccAction::End(end) => {
            assert!(end.answers_client);
            assert!(end.fault.is_none());
            assert_eq!(end.record.unwrap().result, TxResult::Success);
            run.on_end(1, end.slot, end.record).unwrap();
        }
        _ => panic!("it did not end"),
    }
    let mut reorders = OrdMap::new();
    let mut store = RedbInMemoryInodeStore::new().unwrap();
    let settled = run.settle(&mut reorders, &mut store).unwrap();
    assert!(settled.again.is_none());
    assert_eq!(settled.results.len(), 1);
    assert_eq!(store.dump().unwrap().len(), 2);
    assert!(matches!(
        fault(run.settle(&mut reorders, &mut store)),
        BatchFault::DuplicateBatchReorder { batch_id: 7 }
    ));
}

#[test]
fn a_failed_slot_fails_what_must_see_it() {
    let (mut run, task, base) = alone(vec![mkdir("/"), mkdir("/d")], 1);
    run.on_end(0, CommitSlotState::Failed, None).unwrap();
    let (_, action) = task.on_due(run.writes_by_tx(), &base, run.commits()).unwrap();
    match action {
        SccAction::Refuse(msg, _, end) => {
            assert_eq!(msg.status, LocalReadStatus::SpeculationFailed);
            assert!(msg.reads.is_empty());
            assert!(matches!(end.slot, CommitSlotState::Failed));
            assert!(matches!(end.fault, Some(SpeculationFault::FailedSlot { index: 0 })));
            run.on_end(1, end.slot, end.record).unwrap();
        }
        _ => panic!("it went on"),
    }
    let mut reorders = OrdMap::new();
    let mut store = RedbInMemoryInodeStore::new().unwrap();
    let settled = run.settle(&mut reorders, &mut store).unwrap();
    assert_eq!(settled.failed_indices.len(), 2);
    assert_eq!(settled.again.unwrap().txs.len(), 2);
    assert!(store.dump().unwrap().is_empty());
}

#[test]
fn a_transaction_off_its_path_fails() {
    let (run, task, base) = alone(vec![create("/d/a")], 0);
    let (task, _) = task.on_due(run.writes_by_tx(), &base, run.commits()).unwrap();
    let (_, action) = task.on_sent().unwrap();
    match action {
        SccAction::End(end) => assert!(matches!(
            end.fault,
            Some(SpeculationFault::OffPath {
                tx_id: 1,
                result: TxResult::NotFound,
                predicted: PathId::CreateSuccess,
            })
        )),
        _ => panic!("it did not end"),
    }
}

#[test]
fn a_missing_base_read_is_an_error() {
    let (run, task, _) = alone(vec![create("/d/a")], 0);
    match fault(task.on_due(run.writes_by_tx(), &OrdMap::new(), run.commits())) {
        BatchFault::MissingBaseRead { key } => assert_eq!(key.as_str(), "/d"),
        _ => panic!("another fault"),
    }
}

// With two shards, "/d" is on shard 0, and "/d/b" on shard 1.

#[test]
fn a_failure_elsewhere_is_one_here() {
    let run = SccBatch::begin(batch(vec![create("/d/b")]), ShardLayout::new(2), 0).unwrap();
    let base = reads(vec![("/d", dir(0))]);
    let task = SccRun::begin(run.worker(0).unwrap());
    let (task, action) = task.on_due(run.writes_by_tx(), &base, run.commits()).unwrap();
    assert!(matches!(action, SccAction::Send(_, targets) if targets == vec![1]));
    let (task, action) = task.on_sent().unwrap();
    assert!(matches!(action, SccAction::AwaitMessage(SccPhase::Effect)));
    let msg = LocalReadResult {
        batch_id: 7,
        tx_id: 1,
        phase: ReadPhase::SccEffect,
        from_shard: 1,
        status: LocalReadStatus::SpeculationFailed,
        reads: OrdMap::new(),
    };
    let (_, action) = task.on_message(msg).unwrap();
    match action {
        SccAction::End(end) => assert!(matches!(
            end.fault,
            Some(SpeculationFault::RemoteFailure {
                tx_id: 1,
                phase: ReadPhase::SccEffect,
                from_shard: 1,
            })
        )),
        _ => panic!("it did not end"),
    }
}

#[test]
fn an_idle_shard_changes_nothing() {
    let mut run = SccBatch::begin(batch(vec![create("/d/a")]), ShardLayout::new(2), 1).unwrap();
    assert!(!run.responsible(0).unwrap());
    assert!(run.worker(0).is_none());
    run.start().unwrap();
    run.finish_idle(0).unwrap();
    assert!(matches!(fault(run.finish_idle(0)), BatchFault::SlotAlreadySet { index: 0 }));
    let conclusion = run.conclude();
    assert!(matches!(conclusion.snapshot[0], CommitSlotState::NoOp));
    assert!(conclusion.failed_indices.is_empty());
    let summary = run.finish(Vec::new(), Vec::new());
    assert_eq!((summary.batch_id, summary.shard_id), (7, 1));
    assert!(summary.tx_results.is_empty());
}

#[test]
fn a_broken_condition_fails_the_transaction() {
    let mut run =
        SccBatch::begin(batch(vec![create("/d/a"), create("/d/a")]), ShardLayout::new(1), 0)
            .unwrap();
    let base = reads(vec![("/d", dir(0)), ("/d/a", ReadValue::Missing)]);
    let mut worker = run.worker(1).unwrap();
    worker.tx_plan.effect_max_pred_index = None;
    worker.tx_plan.condition_max_pred_index = Some(0);
    let task = SccRun::begin(worker);
    let (task, _) = task.on_due(run.writes_by_tx(), &base, run.commits()).unwrap();
    let (task, action) = task.on_sent().unwrap();
    assert!(matches!(action, SccAction::Stage));
    let (task, action) = task.on_executed().unwrap();
    assert!(matches!(action, SccAction::AwaitCondition(_)));
    let (task, action) = task.on_due(run.writes_by_tx(), &base, run.commits()).unwrap();
    assert!(matches!(action, SccAction::AwaitSlot(0)));
    run.on_end(0, delta(vec![put("/d/a", Inode::file()), grow("/d", 1)]), None).unwrap();
    let (task, action) = task.on_due(run.writes_by_tx(), &base, run.commits()).unwrap();
    assert!(matches!(action, SccAction::Send(msg, _) if msg.phase == ReadPhase::SccCondition));
    let (_, action) = task.on_sent().unwrap();
    match action {
        SccAction::End(end) => {
            assert!(matches!(end.slot, CommitSlotState::Failed));
            assert!(matches!(end.fault, Some(SpeculationFault::ConditionFailed { tx_id: 2 })));
        }
        _ => panic!("it did not end"),
    }
}

#[test]
fn a_full_directory_stops_a_speculating_transaction() {
    let run = SccBatch::begin(batch(vec![create("/d/a")]), ShardLayout::new(1), 0).unwrap();
    let base = reads(vec![("/d", dir(u64::MAX)), ("/d/a", ReadValue::Missing)]);
    let task = SccRun::begin(run.worker(0).unwrap());
    let (task, _) = task.on_due(run.writes_by_tx(), &base, run.commits()).unwrap();
    let (_, action) = task.on_sent().unwrap();
    assert!(matches!(action, SccAction::Overflow));
}

#[test]
fn counts_change_on_directories_within_range() {
    let path = key("/d");
    assert_eq!(changed_count(&path, Some(Inode::directory(3)), -2).unwrap(), Inode::directory(1));
    assert_eq!(
        changed_count(&path, Some(Inode::directory(u64::MAX - 1)), 1).unwrap(),
        Inode::directory(u64::MAX)
    );
    assert!(matches!(
        fault(changed_count(&path, None, 1)),
        BatchFault::CountDeltaOnMissing { key } if key.as_str() == "/d"
    ));
    assert!(matches!(
        fault(changed_count(&path, Some(Inode::file()), 1)),
        BatchFault::CountDeltaOnFile { key } if key.as_str() == "/d"
    ));
    for (count, delta) in [(1, -2), (u64::MAX, 1), (0, i64::MIN)] {
        assert!(matches!(
            fault(changed_count(&path, Some(Inode::directory(count)), delta)),
            BatchFault::CountDeltaUnderflow { key } if key.as_str() == "/d"
        ));
    }
}

#[test]
fn a_batch_lists_what_it_writes_here() {
    let layout = ShardLayout::new(2);
    for shard in 0..2 {
        let whole = batch(vec![create("/d/b"), FsOp::Stat { path: key("/d/b") }]);
        let run = SccBatch::begin(whole, layout, shard).unwrap();
        let listed = run.writes_by_tx();
        assert_eq!(listed.len(), 2);
        assert_eq!(listed[0].len(), 1);
        assert_eq!(listed[0].at(0).as_str(), ["/d", "/d/b"][shard as usize]);
        assert!(listed[1].is_empty());
    }
}
