use calvinfs_demo::checker::{
    assert_aria_tx_results_consistent, assert_scc_reorders_consistent, assert_state_matches,
    assert_tx_results_consistent, merge_shard_states, reference_execute_batches,
    reference_execute_scc_reordered_batches,
};
use calvinfs_demo::collections::{OrdMap, OrdSet};
use calvinfs_demo::engine::aria::batch::AriaBatch;
use calvinfs_demo::engine::aria::fallback::{
    aria_fallback_completion, AriaFallbackBatch, AriaFallbackCompletion,
};
use calvinfs_demo::engine::aria::registry::{
    failures_from_wire, failures_to_wire, AriaBatchRegistry,
};
use calvinfs_demo::engine::aria::run::AriaRun;
use calvinfs_demo::engine::calvin::CalvinBatch;
use calvinfs_demo::engine::locked_run::{completion, LockedAction, LockedRun};
use calvinfs_demo::engine::profile::{
    add_participant_counters, dag_edge_count, new_scheduler_profile, plan_pair_count,
    profile_setting_is_on,
};
use calvinfs_demo::engine::registry::{
    ClientTxResult, MailboxKey, ReadResultMailboxRegistry, TxResultRegistry,
};
use calvinfs_demo::engine::scc_batch::SccBatch;
use calvinfs_demo::engine::scc_run::{SccAction, SccRun};
use calvinfs_demo::engine::scc_worker::SccTerminal;
use calvinfs_demo::engine::sequencer::{batch_summary, Sequencer, SequencerResultPolicy};
use calvinfs_demo::engine::SchedulerKind;
use calvinfs_demo::executor::derive_read_write_set;
use calvinfs_demo::lock::LockGrant;
use calvinfs_demo::model::{
    Batch, BatchId, FsOp, Inode, Key, OrderedTx, ReadPhase, SccReorderRecord,
    SchedulerProfileScheduler, ShardId, TxId, TxResult, TxResultRecord,
};
use calvinfs_demo::router::ShardLayout;
use calvinfs_demo::scc::{build_scc_batch_plan, SccPhase};
use calvinfs_demo::storage::RedbInMemoryInodeStore;
use calvinfs_demo::workload::metadata_workload;
use std::collections::{BTreeMap, BTreeSet, VecDeque};

const SHARD_COUNT: u64 = 4;
const BATCH_COUNT: usize = 16;
const BATCH_SIZE: usize = 512;

struct Shard {
    store: RedbInMemoryInodeStore,
    mailboxes: ReadResultMailboxRegistry,
    results: TxResultRegistry,
    reorders: OrdMap<BatchId, SccReorderRecord>,
    aria: AriaBatchRegistry,
}

struct Cluster {
    layout: ShardLayout,
    scheduler: SchedulerKind,
    sequencer: Sequencer,
    shards: Vec<Shard>,
    batches: Vec<Batch>,
    records: Vec<TxResultRecord>,
}

struct Expected {
    op: FsOp,
    result: TxResult,
}

fn key(path: &str) -> Key {
    Key::new(path.to_string()).unwrap()
}

fn mkdir(path: &str) -> FsOp {
    FsOp::Mkdir { path: key(path) }
}

fn create(path: &str) -> FsOp {
    FsOp::Create { path: key(path) }
}

fn unlink(path: &str) -> FsOp {
    FsOp::Unlink { path: key(path) }
}

fn rmdir(path: &str) -> FsOp {
    FsOp::Rmdir { path: key(path) }
}

fn rename(src: &str, dst: &str) -> FsOp {
    FsOp::Rename { src: key(src), dst: key(dst) }
}

fn stat(path: &str) -> FsOp {
    FsOp::Stat { path: key(path) }
}

fn expect(op: FsOp, result: TxResult) -> Expected {
    Expected { op, result }
}

fn ok(op: FsOp) -> Expected {
    expect(op, TxResult::Success)
}

/// One transaction under locks on one shard.
struct LockedTask {
    shard: usize,
    tx: OrderedTx,
    result_shard: ShardId,
    local_keys: OrdSet<Key>,
    phase: ReadPhase,
    grants: VecDeque<LockGrant>,
    state: Option<(LockedRun, LockedAction)>,
}

enum LockedEnd {
    Done(TxResult),
    Passive,
}

/// Takes one step of a task; `None` where it has to wait.
fn step_locked(task: &mut LockedTask, batch_id: BatchId, shards: &mut Vec<Shard>) -> Option<Option<LockedEnd>> {
    let (run, action) = task.state.take().unwrap();
    match action {
        LockedAction::AwaitGrant => match task.grants.pop_front() {
            None => {
                task.state = Some((run, LockedAction::AwaitGrant));
                None
            }
            Some(grant) => {
                task.state = Some(run.on_grant(&grant).unwrap());
                Some(None)
            }
        },
        LockedAction::Read(keys) => {
            let reads = shards[task.shard].store.read_many(&keys).unwrap();
            task.state = Some(run.on_reads(reads).unwrap());
            Some(None)
        }
        LockedAction::Send(msg, targets) => {
            for target in targets {
                shards[target as usize].mailboxes.route(msg.clone()).unwrap();
            }
            task.state = Some(run.on_sent().unwrap());
            Some(None)
        }
        LockedAction::AwaitMessage => {
            let mailbox = MailboxKey { batch_id, tx_id: task.tx.tx_id, phase: task.phase };
            match shards[task.shard].mailboxes.next(&mailbox).unwrap() {
                None => {
                    task.state = Some((run, LockedAction::AwaitMessage));
                    None
                }
                Some(msg) => {
                    task.state = Some(run.on_message(msg).unwrap());
                    Some(None)
                }
            }
        }
        LockedAction::Write(writes) => {
            shards[task.shard].store.apply_writes_atomically(&writes).unwrap();
            let mailbox = MailboxKey { batch_id, tx_id: task.tx.tx_id, phase: task.phase };
            shards[task.shard].mailboxes.close(&mailbox);
            Some(Some(LockedEnd::Done(run.on_written())))
        }
        LockedAction::Passive => Some(Some(LockedEnd::Passive)),
        LockedAction::Overflow => panic!("a count of entries overflowed"),
    }
}

fn deliver(tasks: &mut Vec<Option<LockedTask>>, shard: usize, grants: Vec<(TxId, LockGrant)>) {
    for (tx_id, grant) in grants {
        for task in tasks.iter_mut().flatten() {
            if task.shard == shard && task.tx.tx_id == tx_id {
                task.grants.push_back(grant);
                break;
            }
        }
    }
}

/// Runs a batch of every shard under locks; gives the records of each shard.
fn run_locked(
    layout: ShardLayout,
    shards: &mut Vec<Shard>,
    batches: &Vec<Option<Batch>>,
    register: bool,
) -> Vec<Vec<TxResultRecord>> {
    let mut runs = Vec::new();
    let mut tasks: Vec<Option<LockedTask>> = Vec::new();
    for (shard, batch) in batches.iter().enumerate() {
        let Some(batch) = batch else {
            runs.push(None);
            continue;
        };
        let mut run = CalvinBatch::begin(batch, layout, shard as u64).unwrap();
        for tx in &batch.txs {
            let step = run.take_in(tx).unwrap();
            if register {
                if step.responsible {
                    shards[shard].results.ensure_pending(tx.tx_id);
                } else {
                    shards[shard].results.mark_not_responsible(tx.tx_id);
                }
            }
            if let Some(work) = step.work {
                if work.active {
                    shards[shard]
                        .mailboxes
                        .receiver(batch.batch_id, tx.tx_id, ReadPhase::Calvin)
                        .unwrap();
                }
                let worker = run.worker(tx, &work);
                tasks.push(Some(LockedTask {
                    shard,
                    tx: tx.clone(),
                    result_shard: work.result_shard,
                    local_keys: work.local_keys.clone(),
                    phase: ReadPhase::Calvin,
                    grants: VecDeque::new(),
                    state: Some(LockedRun::begin(worker, &work.local_keys)),
                }));
            }
        }
        deliver(&mut tasks, shard, run.start());
        runs.push(Some(run));
    }
    let batch_id = batches.iter().flatten().map(|b| b.batch_id).next().unwrap_or(0);
    while tasks.iter().any(|t| t.is_some()) {
        let mut moved = false;
        for index in 0..tasks.len() {
            loop {
                let Some(task) = &mut tasks[index] else { break };
                match step_locked(task, batch_id, shards) {
                    None => break,
                    Some(None) => moved = true,
                    Some(Some(end)) => {
                        moved = true;
                        let task = tasks[index].take().unwrap();
                        let outcome = match end {
                            LockedEnd::Passive => None,
                            LockedEnd::Done(result) => {
                                let (record, answers) = completion(
                                    &task.tx,
                                    result,
                                    task.result_shard,
                                    task.shard as u64,
                                );
                                if answers {
                                    shards[task.shard].results.mark_ready(task.tx.tx_id, result);
                                }
                                Some(record)
                            }
                        };
                        let mut grants = Vec::new();
                        let run = runs[task.shard].as_mut().unwrap();
                        run.on_outcome(task.tx.tx_id, &task.local_keys, Ok(outcome), &mut grants)
                            .unwrap();
                        deliver(&mut tasks, task.shard, grants);
                    }
                }
            }
        }
        assert!(moved, "the cluster is stuck");
    }
    runs.into_iter()
        .map(|run| match run {
            None => Vec::new(),
            Some(run) => {
                assert!(run.is_done());
                run.finish().tx_results
            }
        })
        .collect()
}

enum Waiting {
    Effect,
    Slot(usize),
    Message(SccPhase),
    Condition,
}

struct SccTask {
    shard: usize,
    index: usize,
    tx_id: TxId,
    state: Option<(SccRun, Waiting)>,
}

/// Runs a batch speculatively on every shard; gives the records of each shard.
fn run_scc(layout: ShardLayout, shards: &mut Vec<Shard>, batch: &Batch) -> Vec<Vec<TxResultRecord>> {
    let count = shards.len();
    let len = batch.txs.len();
    let mut runs = Vec::new();
    let mut bases = Vec::new();
    let mut tasks = Vec::new();
    let mut effect_due = vec![vec![false; len]; count];
    let mut condition_due = vec![vec![false; len]; count];
    for shard in 0..count {
        let mut run = SccBatch::begin(batch.clone(), layout, shard as u64).unwrap();
        let mut idle = Vec::new();
        for index in 0..len {
            let tx_id = batch.txs[index].tx_id;
            if run.responsible(index).unwrap() {
                shards[shard].results.ensure_pending(tx_id);
            } else {
                shards[shard].results.mark_not_responsible(tx_id);
            }
            match run.worker(index) {
                None => idle.push(index),
                Some(worker) => {
                    for phase in [ReadPhase::SccEffect, ReadPhase::SccCondition] {
                        shards[shard].mailboxes.receiver(batch.batch_id, tx_id, phase).unwrap();
                    }
                    tasks.push(SccTask {
                        shard,
                        index,
                        tx_id,
                        state: Some((SccRun::begin(worker), Waiting::Effect)),
                    });
                }
            }
        }
        bases.push(shards[shard].store.read_many(&run.base_keys()).unwrap());
        let told = run.start().unwrap();
        let mut all_told = vec![told];
        for index in idle {
            all_told.push(run.finish_idle(index).unwrap());
        }
        for told in all_told {
            for index in told.effect {
                effect_due[shard][index] = true;
            }
            for index in told.condition {
                condition_due[shard][index] = true;
            }
        }
        runs.push(run);
    }
    while tasks.iter().any(|t| t.state.is_some()) {
        let mut moved = false;
        for task in tasks.iter_mut() {
            while let Some((run, waiting)) = task.state.take() {
                let batch_run = &runs[task.shard];
                let shard = task.shard;
                let step = match waiting {
                    Waiting::Effect if !effect_due[shard][task.index] => None,
                    Waiting::Condition if !condition_due[shard][task.index] => None,
                    Waiting::Slot(slot) => match batch_run.commits().wait_terminal(slot).unwrap() {
                        None => None,
                        Some(_) => Some(None),
                    },
                    Waiting::Message(phase) => {
                        let phase = match phase {
                            SccPhase::Effect => ReadPhase::SccEffect,
                            SccPhase::Condition => ReadPhase::SccCondition,
                        };
                        let mailbox =
                            MailboxKey { batch_id: batch.batch_id, tx_id: task.tx_id, phase };
                        shards[shard].mailboxes.next(&mailbox).unwrap().map(Some)
                    }
                    _ => Some(None),
                };
                let (mut run, mut action) = match step {
                    None => {
                        task.state = Some((run, waiting));
                        break;
                    }
                    Some(None) => run
                        .on_due(batch_run.writes_by_tx(), &bases[shard], batch_run.commits())
                        .unwrap(),
                    Some(Some(msg)) => run.on_message(msg).unwrap(),
                };
                moved = true;
                let mut end: Option<SccTerminal> = None;
                loop {
                    match action {
                        SccAction::Send(msg, targets) => {
                            for target in targets {
                                shards[target as usize].mailboxes.route(msg.clone()).unwrap();
                            }
                            (run, action) = run.on_sent().unwrap();
                        }
                        SccAction::Refuse(msg, targets, terminal) => {
                            for target in targets {
                                shards[target as usize].mailboxes.route(msg.clone()).unwrap();
                            }
                            end = Some(terminal);
                            break;
                        }
                        SccAction::AwaitSlot(slot) => {
                            task.state = Some((run, Waiting::Slot(slot)));
                            break;
                        }
                        SccAction::AwaitMessage(phase) => {
                            task.state = Some((run, Waiting::Message(phase)));
                            break;
                        }
                        SccAction::Stage => (run, action) = run.on_executed().unwrap(),
                        SccAction::AwaitCondition(_) => {
                            task.state = Some((run, Waiting::Condition));
                            break;
                        }
                        SccAction::End(terminal) => {
                            end = Some(terminal);
                            break;
                        }
                        SccAction::Overflow => panic!("a count of entries overflowed"),
                    }
                }
                if let Some(terminal) = end {
                    if terminal.answers_client {
                        shards[shard].results.mark_ready(task.tx_id, TxResult::Success);
                    }
                    let told =
                        runs[shard].on_end(task.index, terminal.slot, terminal.record).unwrap();
                    for index in told.effect {
                        effect_due[shard][index] = true;
                    }
                    for index in told.condition {
                        condition_due[shard][index] = true;
                    }
                }
            }
        }
        assert!(moved, "the cluster is stuck");
    }
    let mut again = Vec::new();
    let mut results = Vec::new();
    for (run, shard) in runs.iter().zip(shards.iter_mut()) {
        let settled = run.settle(&mut shard.reorders, &mut shard.store).unwrap();
        results.push(settled.results);
        again.push(settled.again);
    }
    let again_results = run_locked(layout, shards, &again, true);
    runs.into_iter()
        .zip(results)
        .zip(again_results)
        .map(|((run, results), again)| run.finish(results, again).tx_results)
        .collect()
}

/// Runs a batch on a snapshot on every shard; gives the records of each shard.
fn run_aria(layout: ShardLayout, shards: &mut Vec<Shard>, batch: &Batch) -> Vec<Vec<TxResultRecord>> {
    let count = shards.len();
    let id = batch.batch_id;
    let mut runs = Vec::new();
    for shard in 0..count {
        let run = AriaBatch::begin(batch.clone(), layout, shard as u64).unwrap();
        for (index, tx) in batch.txs.iter().enumerate() {
            if run.responsible(index) {
                shards[shard].results.ensure_pending(tx.tx_id);
            } else {
                shards[shard].results.mark_not_responsible(tx.tx_id);
            }
        }
        runs.push(run);
    }
    for shard in 0..count {
        for index in runs[shard].to_run() {
            let tx = &batch.txs[index];
            let mut one =
                AriaRun::begin(layout, shard as u64, id, index, tx.clone()).unwrap();
            while let Some((key, owner)) = one.next() {
                let key = key.clone();
                let Shard { store, aria, .. } = &mut shards[owner as usize];
                let value = aria.read_snapshot(store, &layout, owner, id, index, &key).unwrap();
                one.on_value(key, value).unwrap();
            }
            for (target, outcome) in one.finish().unwrap() {
                shards[target as usize].aria.stage_outcome(&layout, target, outcome).unwrap();
            }
            runs[shard].on_run(index, Ok(())).unwrap();
        }
        assert!(runs[shard].has_run());
        assert!(runs[shard].failures(&shards[shard].aria).is_none());
        for target in shards.iter_mut() {
            target.aria.record_execution_done(id, shard as u64, layout.shard_count).unwrap();
        }
    }
    for shard in 0..count {
        let failed = failures_to_wire(&runs[shard].failures(&shards[shard].aria).unwrap());
        for target in shards.iter_mut() {
            target
                .aria
                .record_local_failures(
                    id,
                    shard as u64,
                    failures_from_wire(&failed),
                    layout.shard_count,
                )
                .unwrap();
        }
    }
    let mut again = Vec::new();
    let mut results = Vec::new();
    for (run, shard) in runs.iter().zip(shards.iter_mut()) {
        let settled = run.settle(&shard.aria, &mut shard.reorders, &mut shard.store);
        let settled = settled.unwrap().unwrap();
        for record in &settled.results {
            shard.results.mark_ready(record.tx_id, record.result);
        }
        results.push(settled.results);
        again.push(settled.again);
    }
    let again_results = run_aria_fallback(layout, shards, &again);
    for shard in shards.iter_mut() {
        shard.aria.cleanup_batch(id);
    }
    runs.into_iter()
        .zip(results)
        .zip(again_results)
        .map(|((run, results), again)| run.finish(results, again).tx_results)
        .collect()
}

fn run_aria_fallback(
    layout: ShardLayout,
    shards: &mut Vec<Shard>,
    batches: &Vec<Option<Batch>>,
) -> Vec<Vec<TxResultRecord>> {
    let mut runs = Vec::new();
    let mut tasks: Vec<Option<LockedTask>> = Vec::new();
    for (shard, batch) in batches.iter().enumerate() {
        let Some(batch) = batch else {
            runs.push(None);
            continue;
        };
        let mut run = AriaFallbackBatch::begin(batch, layout, shard as u64).unwrap();
        for tx in &batch.txs {
            if let Some(work) = run.take_in(tx).unwrap() {
                if work.is_active {
                    shards[shard]
                        .mailboxes
                        .receiver(batch.batch_id, tx.tx_id, ReadPhase::AriaFallback)
                        .unwrap();
                }
                let worker = run.worker(&work);
                tasks.push(Some(LockedTask {
                    shard,
                    tx: tx.clone(),
                    result_shard: work.result_shard,
                    local_keys: work.local_keys.clone(),
                    phase: ReadPhase::AriaFallback,
                    grants: VecDeque::new(),
                    state: Some(LockedRun::begin(worker, &work.local_keys)),
                }));
            }
        }
        deliver(&mut tasks, shard, run.start());
        runs.push(Some(run));
    }
    let batch_id = batches.iter().flatten().map(|b| b.batch_id).next().unwrap_or(0);
    while tasks.iter().any(|t| t.is_some()) {
        let mut moved = false;
        for index in 0..tasks.len() {
            loop {
                let Some(task) = &mut tasks[index] else { break };
                match step_locked(task, batch_id, shards) {
                    None => break,
                    Some(None) => moved = true,
                    Some(Some(end)) => {
                        moved = true;
                        let task = tasks[index].take().unwrap();
                        let outcome = match end {
                            LockedEnd::Passive => AriaFallbackCompletion::Passive,
                            LockedEnd::Done(result) => aria_fallback_completion(
                                task.tx.tx_id,
                                task.result_shard,
                                task.shard as u64,
                                result,
                            ),
                        };
                        if let AriaFallbackCompletion::Active { record: Some(record), .. } = outcome
                        {
                            shards[task.shard].results.mark_ready(record.tx_id, record.result);
                        }
                        let mut grants = Vec::new();
                        let run = runs[task.shard].as_mut().unwrap();
                        run.on_outcome(task.tx.tx_id, &task.local_keys, Ok(outcome), &mut grants)
                            .unwrap();
                        deliver(&mut tasks, task.shard, grants);
                    }
                }
            }
        }
        assert!(moved, "the cluster is stuck");
    }
    runs.into_iter()
        .map(|run| match run {
            None => Vec::new(),
            Some(run) => {
                assert!(run.is_done());
                run.finish().tx_results
            }
        })
        .collect()
}

impl Cluster {
    fn new(scheduler: SchedulerKind) -> Cluster {
        let layout = ShardLayout::new(SHARD_COUNT);
        let policy = match scheduler {
            SchedulerKind::Aria => SequencerResultPolicy::TxIdModulo,
            _ => SequencerResultPolicy::StaticReadWriteSet,
        };
        let shards = (0..SHARD_COUNT)
            .map(|_| Shard {
                store: RedbInMemoryInodeStore::new().unwrap(),
                mailboxes: ReadResultMailboxRegistry::new(),
                results: TxResultRegistry::new(),
                reorders: OrdMap::new(),
                aria: AriaBatchRegistry::new(),
            })
            .collect();
        Cluster {
            layout,
            scheduler,
            sequencer: Sequencer::new(layout, policy, BATCH_SIZE),
            shards,
            batches: Vec::new(),
            records: Vec::new(),
        }
    }

    fn execute(&mut self, batch: &Batch) -> Vec<Vec<TxResultRecord>> {
        let reports = match self.scheduler {
            SchedulerKind::CalvinLocking => {
                let batches = self.shards.iter().map(|_| Some(batch.clone())).collect();
                run_locked(self.layout, &mut self.shards, &batches, true)
            }
            SchedulerKind::SccOnline => run_scc(self.layout, &mut self.shards, batch),
            SchedulerKind::Aria => run_aria(self.layout, &mut self.shards, batch),
        };
        for shard in self.shards.iter_mut() {
            assert_eq!(shard.mailboxes.cleanup_batch(batch.batch_id), 0);
        }
        reports
    }

    /// Submits a batch and checks the result of each of its operations.
    fn submit(&mut self, ops: Vec<Expected>) {
        let expected: Vec<TxResult> = ops.iter().map(|e| e.result).collect();
        assert!(self.sequencer.has_ids_for(ops.len()));
        let sealed = self
            .sequencer
            .handle_submit_batch(ops.into_iter().map(|e| e.op).collect())
            .unwrap()
            .sealed;
        let reports = self.execute(&sealed.batch);
        let summary = batch_summary(sealed.batch.batch_id, sealed.tx_ids, &reports);
        assert_eq!(summary.tx_ids.len(), expected.len());
        let by_tx: BTreeMap<TxId, TxResult> =
            summary.tx_ids.iter().copied().zip(expected).collect();
        let mut seen = BTreeSet::new();
        for record in &summary.tx_results {
            assert_eq!(
                record.result, by_tx[&record.tx_id],
                "tx {} on shard {}",
                record.tx_id, record.shard_id
            );
            seen.insert(record.tx_id);
        }
        assert_eq!(seen.len(), summary.tx_ids.len());
        self.records.extend(summary.tx_results);
        self.batches.push(sealed.batch);
    }

    fn state(&self) -> OrdMap<Key, Inode> {
        let states = self
            .shards
            .iter()
            .enumerate()
            .map(|(id, shard)| (id as u64, shard.store.dump().unwrap()))
            .collect();
        merge_shard_states(&self.layout, states).unwrap()
    }

    fn shard_reorders(&self) -> Vec<(ShardId, Vec<SccReorderRecord>)> {
        self.shards
            .iter()
            .enumerate()
            .map(|(id, shard)| {
                let n = shard.reorders.len();
                let records = (0..n).map(|i| shard.reorders.value_at(i).clone()).collect();
                (id as u64, records)
            })
            .collect()
    }

    /// Checks the reordered run against the state; gives the order of each batch.
    fn check_reordered(&self) -> OrdMap<BatchId, SccReorderRecord> {
        let reorders =
            assert_scc_reorders_consistent(&self.batches, self.shard_reorders()).unwrap();
        let expected = reference_execute_scc_reordered_batches(&self.batches, &reorders).unwrap();
        assert_state_matches(&expected, &self.state()).unwrap();
        reorders
    }
}

fn small_semantic_batches() -> Vec<Vec<Expected>> {
    vec![
        vec![
            ok(mkdir("/semantic")),
            ok(mkdir("/semantic/a")),
            ok(mkdir("/semantic/b")),
            ok(create("/semantic/a/file")),
            ok(create("/semantic/a/other")),
            ok(create("/semantic/a/parent_file")),
            ok(mkdir("/semantic/a/empty_dir")),
            ok(mkdir("/semantic/a/nonempty_dir")),
            ok(create("/semantic/a/nonempty_dir/child")),
            ok(stat("/semantic/a/file")),
            expect(stat("/semantic/missing"), TxResult::NotFound),
        ],
        vec![
            expect(mkdir("/semantic/a"), TxResult::AlreadyExists),
            expect(mkdir("/semantic/missing_parent/child"), TxResult::NotFound),
            expect(mkdir("/semantic/a/parent_file/child_dir"), TxResult::NotDirectory),
            expect(create("/semantic/a/file"), TxResult::AlreadyExists),
            expect(create("/semantic/missing_parent/file"), TxResult::NotFound),
            expect(create("/semantic/a/parent_file/child"), TxResult::NotDirectory),
            expect(create("/"), TxResult::Invalid),
            ok(stat("/semantic/a/file")),
            expect(stat("/semantic/nope"), TxResult::NotFound),
            ok(unlink("/semantic/a/other")),
            expect(unlink("/semantic/a/other"), TxResult::NotFound),
            expect(unlink("/semantic/a/nonempty_dir"), TxResult::Invalid),
            expect(unlink("/"), TxResult::Invalid),
            ok(rmdir("/semantic/a/empty_dir")),
            expect(rmdir("/semantic/a/nonempty_dir"), TxResult::DirectoryNotEmpty),
            expect(rmdir("/semantic/a/file"), TxResult::NotDirectory),
            expect(rmdir("/"), TxResult::Invalid),
        ],
        vec![
            ok(create("/semantic/a/to_rename")),
            ok(rename("/semantic/a/to_rename", "/semantic/b/renamed_file")),
            ok(stat("/semantic/b/renamed_file")),
            expect(
                rename("/semantic/b/renamed_file", "/semantic/a/file"),
                TxResult::AlreadyExists,
            ),
            expect(
                rename("/semantic/missing_src", "/semantic/b/missing_dst"),
                TxResult::NotFound,
            ),
            expect(
                rename("/semantic/a/nonempty_dir", "/semantic/b/nonempty_moved"),
                TxResult::DirectoryNotEmpty,
            ),
            ok(mkdir("/semantic/a/rename_empty_dir")),
            ok(rename("/semantic/a/rename_empty_dir", "/semantic/b/renamed_empty_dir")),
            expect(
                rename("/semantic/b/renamed_empty_dir", "/semantic/b/renamed_empty_dir"),
                TxResult::Invalid,
            ),
            expect(rename("/", "/semantic/root_move"), TxResult::Invalid),
            expect(rename("/semantic/a/file", "/"), TxResult::Invalid),
            expect(
                rename("/semantic/a/file", "/semantic/a/parent_file/child_dst"),
                TxResult::NotDirectory,
            ),
        ],
    ]
}

fn mixed_case(case_id: usize) -> Vec<Expected> {
    let base = format!("/dir_{}/mix_case_{}", case_id, case_id);
    let dst = format!("/dir_{}/mix_case_{}_renamed", case_id + 128, case_id);
    let at = |name: &str| format!("{}/{}", base, name);
    vec![
        ok(mkdir(&base)),
        ok(create(&at("file"))),
        ok(stat(&at("file"))),
        expect(create(&at("file")), TxResult::AlreadyExists),
        expect(mkdir(&at("file/child_dir")), TxResult::NotDirectory),
        expect(create(&at("missing_parent/file")), TxResult::NotFound),
        ok(mkdir(&at("empty_dir"))),
        ok(rmdir(&at("empty_dir"))),
        ok(mkdir(&at("nonempty_dir"))),
        ok(create(&at("nonempty_dir/child"))),
        expect(rmdir(&at("nonempty_dir")), TxResult::DirectoryNotEmpty),
        ok(unlink(&at("nonempty_dir/child"))),
        ok(rmdir(&at("nonempty_dir"))),
        ok(create(&at("to_rename"))),
        ok(rename(&at("to_rename"), &dst)),
        expect(rename(&at("file"), &at("file")), TxResult::Invalid),
    ]
}

#[test]
fn four_shards_full_metadata_workload() {
    let mut cluster = Cluster::new(SchedulerKind::CalvinLocking);
    for ops in metadata_workload(BATCH_COUNT, BATCH_SIZE).unwrap() {
        cluster.submit(ops.into_iter().map(ok).collect());
    }
    for ops in small_semantic_batches() {
        cluster.submit(ops);
    }
    let mut mixed = Vec::new();
    for case_id in 0..32 {
        mixed.extend(mixed_case(case_id));
    }
    assert_eq!(mixed.len(), BATCH_SIZE);
    cluster.submit(mixed);

    let expected = reference_execute_batches(&cluster.batches);
    assert_state_matches(&expected, &cluster.state()).unwrap();
    assert_tx_results_consistent(&cluster.layout, &cluster.batches, &cluster.records).unwrap();
}

#[test]
fn submit_tx_get_result_client_api() {
    let mut cluster = Cluster::new(SchedulerKind::CalvinLocking);
    let ops = vec![
        ok(mkdir("/")),
        ok(mkdir("/client")),
        ok(create("/client/file")),
        ok(stat("/client/file")),
        expect(create("/client/file"), TxResult::AlreadyExists),
        ok(unlink("/client/file")),
        ok(rmdir("/client")),
        ok(stat("/")),
    ];
    for (index, Expected { op, result }) in ops.into_iter().enumerate() {
        let submitted = cluster.sequencer.handle_submit_tx(op.clone()).unwrap();
        assert_eq!(submitted.ack.tx_id, index as u64 + 1);
        assert!(submitted.sealed.is_none());
        let (read_set, write_set) = derive_read_write_set(&op).unwrap();
        let result_shard = submitted.ack.result_shard;
        assert_eq!(
            Some(result_shard),
            cluster.layout.result_shard_for_sets(&read_set, &write_set)
        );
        if matches!(op, FsOp::Stat { .. }) {
            assert_eq!(Some(result_shard), cluster.layout.read_only_coordinator(&read_set));
        }
        let opened = submitted.opened.unwrap();
        let sealed = cluster.sequencer.flush_open(opened).unwrap();
        let tx_id = submitted.ack.tx_id;
        assert!(cluster.shards[result_shard as usize].results.wait(tx_id).is_none());
        cluster.execute(&sealed.batch);
        let answer = cluster.shards[result_shard as usize].results.wait(tx_id);
        assert!(matches!(answer, Some(ClientTxResult::Ready(r)) if r == result));
        let other = (result_shard + 1) % SHARD_COUNT;
        let answer = cluster.shards[other as usize].results.wait(tx_id);
        assert!(matches!(answer, Some(ClientTxResult::NotResponsible)));
        cluster.batches.push(sealed.batch);
    }
    let expected = reference_execute_batches(&cluster.batches);
    assert_state_matches(&expected, &cluster.state()).unwrap();
}

#[test]
fn scc_same_parent_create_batch() {
    let mut cluster = Cluster::new(SchedulerKind::SccOnline);
    cluster.submit(vec![ok(mkdir("/"))]);
    cluster.submit(vec![ok(mkdir("/scc_public"))]);
    cluster.submit((0..64).map(|i| ok(create(&format!("/scc_public/file_{}", i)))).collect());
    let reorders = cluster.check_reordered();
    for i in 0..reorders.len() {
        assert!(reorders.value_at(i).fallback_indices.is_empty());
    }
    assert_tx_results_consistent(&cluster.layout, &cluster.batches, &cluster.records).unwrap();
    assert_eq!(cluster.state().get(&key("/scc_public")).unwrap().child_count, 64);
}

#[test]
fn scc_prediction_failure_fallback() {
    let mut cluster = Cluster::new(SchedulerKind::SccOnline);
    cluster.submit(vec![ok(mkdir("/"))]);
    cluster.submit(vec![ok(mkdir("/scc_fb"))]);
    cluster.submit(vec![
        ok(create("/scc_fb/x")),
        expect(create("/scc_fb/x"), TxResult::AlreadyExists),
    ]);
    let batch_id = cluster.batches.last().unwrap().batch_id;
    let failed = cluster.layout.participants(&cluster.batches.last().unwrap().txs[1]).all;
    let mut bystanders = 0;
    for (shard_id, records) in cluster.shard_reorders() {
        let record = records.iter().find(|r| r.batch_id == batch_id).unwrap();
        assert_eq!(record.fallback_indices.contains(&1), failed.contains(&shard_id));
        if !failed.contains(&shard_id) {
            bystanders += 1;
        }
    }
    assert!(bystanders > 0);
    let reorders = cluster.check_reordered();
    let record = reorders.get(&batch_id).unwrap();
    assert_eq!(record.speculative_success_indices, vec![0]);
    assert_eq!(record.fallback_indices, vec![1]);
    assert_tx_results_consistent(&cluster.layout, &cluster.batches, &cluster.records).unwrap();
}

#[test]
fn scc_mixed_metadata_success_batch() {
    let mut cluster = Cluster::new(SchedulerKind::SccOnline);
    cluster.submit(vec![
        ok(mkdir("/")),
        ok(mkdir("/scc_mix")),
        ok(mkdir("/scc_mix/src")),
        ok(mkdir("/scc_mix/dst")),
    ]);
    cluster.submit(vec![
        ok(create("/scc_mix/src/file_old")),
        ok(mkdir("/scc_mix/src/empty_dir")),
        ok(create("/scc_mix/src/delete_file")),
        ok(mkdir("/scc_mix/src/delete_dir")),
    ]);
    cluster.submit(vec![
        ok(create("/scc_mix/src/new_file")),
        ok(unlink("/scc_mix/src/delete_file")),
        ok(rmdir("/scc_mix/src/delete_dir")),
        ok(rename("/scc_mix/src/file_old", "/scc_mix/dst/file_new")),
        ok(rename("/scc_mix/src/empty_dir", "/scc_mix/dst/empty_dir_new")),
        ok(stat("/scc_mix/dst/file_new")),
        ok(stat("/scc_mix/src/new_file")),
    ]);
    let reorders = cluster.check_reordered();
    for i in 0..reorders.len() {
        assert!(reorders.value_at(i).fallback_indices.is_empty());
    }
    assert_tx_results_consistent(&cluster.layout, &cluster.batches, &cluster.records).unwrap();
    let actual = cluster.state();
    assert!(!actual.contains_key(&key("/scc_mix/src/file_old")));
    assert!(actual.contains_key(&key("/scc_mix/dst/file_new")));
    assert!(!actual.contains_key(&key("/scc_mix/src/delete_file")));
    assert!(!actual.contains_key(&key("/scc_mix/src/delete_dir")));
}

#[test]
fn small_semantic_batches_under_speculation() {
    let mut cluster = Cluster::new(SchedulerKind::SccOnline);
    cluster.submit(vec![ok(mkdir("/"))]);
    for ops in small_semantic_batches() {
        cluster.submit(ops);
    }
    cluster.check_reordered();
    assert_tx_results_consistent(&cluster.layout, &cluster.batches, &cluster.records).unwrap();
}

#[test]
fn small_semantic_batches_on_snapshots() {
    let mut cluster = Cluster::new(SchedulerKind::Aria);
    cluster.submit(vec![ok(mkdir("/"))]);
    for ops in small_semantic_batches() {
        for op in ops {
            cluster.submit(vec![op]);
        }
    }
    cluster.check_reordered();
    assert_aria_tx_results_consistent(&cluster.layout, &cluster.batches, &cluster.records).unwrap();
}

#[test]
fn snapshot_batch_with_conflicts_runs_the_losers_again() {
    let mut cluster = Cluster::new(SchedulerKind::Aria);
    cluster.submit(vec![ok(mkdir("/"))]);
    cluster.submit(vec![ok(mkdir("/d"))]);
    cluster.submit(vec![
        ok(create("/d/a")),
        ok(create("/d/b")),
        expect(create("/d/a"), TxResult::AlreadyExists),
        expect(stat("/nothing"), TxResult::NotFound),
    ]);
    let reorders = cluster.check_reordered();
    let record = reorders.get(&cluster.batches.last().unwrap().batch_id).unwrap();
    assert_eq!(record.speculative_success_indices, vec![0, 3]);
    assert_eq!(record.fallback_indices, vec![1, 2]);
    assert_eq!(cluster.state().get(&key("/d")).unwrap().child_count, 2);
    assert_aria_tx_results_consistent(&cluster.layout, &cluster.batches, &cluster.records).unwrap();
}

#[test]
fn all_schedulers_reach_the_same_state() {
    let mut states = Vec::new();
    for scheduler in [SchedulerKind::CalvinLocking, SchedulerKind::SccOnline, SchedulerKind::Aria] {
        let mut cluster = Cluster::new(scheduler);
        cluster.submit(vec![ok(mkdir("/"))]);
        cluster.submit(vec![ok(mkdir("/a")), ok(mkdir("/b"))]);
        cluster.submit((0..20).map(|i| ok(create(&format!("/a/f{}", i)))).collect());
        cluster.submit(
            (0..10).map(|i| ok(rename(&format!("/a/f{}", i), &format!("/b/g{}", i)))).collect(),
        );
        cluster.submit((10..20).map(|i| ok(unlink(&format!("/a/f{}", i)))).collect());
        cluster.submit(vec![ok(rmdir("/a"))]);
        states.push(cluster.state());
    }
    assert_state_matches(&states[0], &states[1]).unwrap();
    assert_state_matches(&states[0], &states[2]).unwrap();
    assert_eq!(states[0].len(), 12);
    assert_eq!(states[0].get(&key("/b")).unwrap().child_count, 10);
}

#[test]
fn scheduler_profiles_count_what_a_batch_holds() {
    assert!(!profile_setting_is_on(""));
    assert!(profile_setting_is_on("1"));
    let mut cluster = Cluster::new(SchedulerKind::CalvinLocking);
    cluster.submit(vec![ok(mkdir("/"))]);
    cluster.submit(vec![ok(mkdir("/profile"))]);
    cluster.submit(vec![ok(create("/profile/a")), ok(create("/profile/b"))]);
    let batch = cluster.batches.last().unwrap();
    for shard_id in 0..SHARD_COUNT {
        let mut record = new_scheduler_profile(
            SchedulerProfileScheduler::SccOnline,
            batch.batch_id,
            batch.txs.len(),
            shard_id,
        );
        assert_eq!(record.batch_id, batch.batch_id);
        assert_eq!(record.shard_id, shard_id);
        assert_eq!(record.counters.tx_count, 2);
        assert_eq!(record.counters.plan_pair_count, 0);
        assert_eq!(plan_pair_count(batch.txs.len()), 1);
        let mut relevant = 0;
        for tx in &batch.txs {
            let participants = cluster.layout.participants(tx);
            add_participant_counters(&mut record.counters, &participants, shard_id);
            if participants.active.contains(&shard_id) {
                relevant += 1;
            }
        }
        assert_eq!(record.counters.active_tx_count, relevant);
    }
    let plan = build_scc_batch_plan(batch).unwrap();
    assert_eq!(dag_edge_count(&plan.effect), 0);
    assert_eq!(dag_edge_count(&plan.condition), 0);
}
