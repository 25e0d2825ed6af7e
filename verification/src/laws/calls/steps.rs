//! Calls of the steps of a run: on a snapshot, once more under locks, and speculating.

use crate::collections;
use crate::collections::{OrdMap, OrdSet, SortKey};
use crate::engine::aria::batch::{AriaBatch, AriaSettled};
use crate::engine::aria::fallback::{AriaFallbackBatch, AriaFallbackCompletion, AriaFallbackWork};
use crate::engine::aria::registry::AriaBatchRegistry;
use crate::engine::aria::run::AriaRun;
use crate::engine::aria::AriaStageOutcome;
use crate::engine::batch::BatchExecutionSummary;
use crate::engine::locked_run::{LockedAction, LockedRun, LockedWorker};
use crate::engine::reads::LocalReadResult;
use crate::engine::scc_run::{SccAction, SccRun, SccStageView};
use crate::error::Result;
use crate::executor;
use crate::laws::calls::snapshots;
use crate::laws::calls::speculating;
use crate::laws::calls::workers;
use crate::laws::conflicts;
use crate::laws::operations;
use crate::laws::outcomes;
use crate::laws::queues;
use crate::lock;
use crate::lock::LockGrant;
use crate::model::{
    Batch, BatchId, FsOpView, Key, LocalReadStatus, OrderedTx, ReadPhase, ReadValue, SccReorderRecord,
    ShardId, TxId, TxResult, TxResultRecord, WriteOpView,
};
use crate::path;
use crate::path::Path;
use crate::router;
use crate::router::ShardLayout;
use crate::scc::commit::CommitSequence;
use crate::scc::delta;
use crate::scc::plan::SccPhase;
use crate::scc::read;
use crate::scc::tables;
use crate::state::State;
use crate::storage::RedbInMemoryInodeStore;
use vstd::prelude::*;

verus! {

/// A shard runs those transactions of a batch whose ids pick it, in batch order, and is
/// done when each has ended.
pub proof fn lemma_aria_begin_call(
    b: Batch,
    layout: ShardLayout,
    shard: ShardId,
    r: Result<AriaBatch>,
    places: Vec<usize>,
    done: bool,
    i: usize,
    own: bool,
)
    requires
        layout.wf(),
        call_ensures(AriaBatch::begin, (b, layout, shard), r),
        r is Ok,
        call_ensures(AriaBatch::to_run, (&r->Ok_0,), places),
        call_ensures(AriaBatch::has_run, (&r->Ok_0,), done),
        i < b@.txs.len() <= usize::MAX,
        call_ensures(AriaBatch::responsible, (&r->Ok_0, i), own),
    ensures
        own <==> b@.txs[i as int].tx_id as int % layout.shard_count as int == shard,
        places@.contains(i) <==> own,
        forall|x: int, y: int| 0 <= x < y < places@.len() ==> places@[x] < places@[y],
        done ==> !own,
{
    let v = r->Ok_0@;
    let all = crate::indices::all_indices(b@.txs.len());
    crate::laws::orders::lemma_indices_finite(b@.txs.len());
    assert forall|k: usize| v.pending.contains(k) implies all.contains(k) by {}
    vstd::set_lib::lemma_set_subset_finite::<usize>(all, v.pending);
    collections::lemma_sorted_of_finite::<usize>(v.pending);
    assert(places@.contains(i) == places@.to_set().contains(i));
    assert forall|x: int, y: int| 0 <= x < y < places@.len() implies places@[x] < places@[y] by {
        assert(<usize as SortKey>::before(places@[x], places@[y]));
    }
}

/// A transaction that has run is not to run any more; the others are as they were.
pub proof fn lemma_aria_run_call(
    run: &mut AriaBatch,
    index: usize,
    outcome: Result<()>,
    r: Result<()>,
    other: usize,
)
    requires
        old(run).wf(),
        call_ensures(AriaBatch::on_run, (run, index, outcome), r),
    ensures
        r == outcome,
        outcome is Ok ==> (final(run)@.pending.contains(other) <==> old(run)@.pending.contains(
            other,
        ) && other != index),
        outcome is Err ==> final(run)@ == old(run)@,
        final(run)@.batch == old(run)@.batch,
{
}

/// Who loses is told once every shard has run all, and not before.
pub proof fn lemma_aria_failures_call(
    run: &AriaBatch,
    known: &AriaBatchRegistry,
    r: Option<OrdSet<usize>>,
    i: usize,
)
    requires
        call_ensures(AriaBatch::failures, (run, known), r),
    ensures
        ({
            let v = known.state(run@.batch.batch_id);
            &&& r is Some <==> forall|s: ShardId|
                s < run@.shard_count ==> #[trigger] v.done.contains(s)
            &&& r matches Some(failed) ==> failed@.contains(i) ==> exists|key: Path, j: usize|
                #[trigger]
                snapshots::noted_at(v.writers, key, j) && j < i
        }),
{
    let v = known.state(run@.batch.batch_id);
    if let Some(failed) = r {
        if failed@.contains(i) {
            let key = choose|key: Path| #[trigger] v.loses(key, i);
            let j = choose|j: usize|
                j < i && #[trigger] crate::engine::aria::state::users_of(v.writers, key).contains(
                    j,
                );
            assert(snapshots::noted_at(v.writers, key, j));
        }
    }
}

/// The report of a batch on a snapshot holds the results of both runs.
pub proof fn lemma_aria_finish_call(
    run: &AriaBatch,
    results: Vec<TxResultRecord>,
    again: Vec<TxResultRecord>,
    r: BatchExecutionSummary,
    i: int,
    j: int,
)
    requires
        call_ensures(AriaBatch::finish, (run, results, again), r),
    ensures
        r.batch_id == run@.batch.batch_id && r.shard_id == run@.shard_id,
        r.tx_results@.len() == results@.len() + again@.len(),
        0 <= i < j < r.tx_results@.len() ==> r.tx_results@[i].tx_id < r.tx_results@[j].tx_id || (
        r.tx_results@[i].tx_id == r.tx_results@[j].tx_id && r.tx_results@[i].shard_id
            <= r.tx_results@[j].shard_id),
{
    if 0 <= i < j < r.tx_results@.len() {
        assert(crate::engine::batch::not_after(r.tx_results@[i], r.tx_results@[j]));
    }
}

/// A transaction on a snapshot asks for the keys of its operation, each of the shard on
/// which it lives, until all are known.
pub proof fn lemma_ask_call(run: &AriaRun, r: Option<(&Key, ShardId)>)
    requires
        run.wf(),
        call_ensures(AriaRun::next, (run,), r),
    ensures
        r matches Some((key, owner)) ==> owner == router::shard_of(run@.shard_count, key@),
        r is None ==> run@.reads.dom() == executor::read_keys(run@.tx.op),
{
}

/// What is answered is taken if and only if it is about the key that was asked for; it is
/// then known as it was answered, and what was known stays.
pub proof fn lemma_answer_call(
    run: &mut AriaRun,
    asked: Option<(&Key, ShardId)>,
    before: AriaRun,
    returned: Key,
    value: ReadValue,
    r: Result<()>,
    other: Path,
)
    requires
        before@ == old(run)@,
        before.wf(),
        call_ensures(AriaRun::next, (&before,), asked),
        asked is Some,
        old(run).wf(),
        call_ensures(AriaRun::on_value, (run, returned, value), r),
    ensures
        r is Ok <==> returned@ == (asked->Some_0).0@,
        r is Ok ==> final(run)@.reads.contains_key(returned@) && final(run)@.reads[returned@]
            == value,
        r is Ok && other != returned@ ==> (final(run)@.reads.contains_key(other)
            <==> old(run)@.reads.contains_key(other)),
        r is Ok && other != returned@ && old(run)@.reads.contains_key(other)
            ==> final(run)@.reads[other] == old(run)@.reads[other],
        r is Err ==> final(run)@ == old(run)@,
        final(run)@.tx == old(run)@.tx,
{
}

/// A transaction that is run again concerns a shard if a key of its operation lives there,
/// or if the shard answers for it. It lines up last at each of its keys there.
pub proof fn lemma_again_taken_in_call(
    run: &mut AriaFallbackBatch,
    tx: &OrderedTx,
    r: Result<Option<AriaFallbackWork>>,
    key: Path,
    shard: ShardId,
)
    requires
        old(run).wf(),
        call_ensures(AriaFallbackBatch::take_in, (run, tx), r),
    ensures
        r is Ok,
        ({
            let v = old(run)@;
            let w = final(run)@;
            let answers = tx@.tx_id as int % v.shard_count as int;
            let here = router::shard_of(v.shard_count, key) == v.shard_id && (executor::read_keys(
                tx@.op,
            ).contains(key) || executor::write_keys(tx@.op).contains(key));
            &&& v.shard_id == answers || here ==> (r matches Ok(Some(_)))
            &&& r matches Ok(Some(work)) ==> {
                &&& work.tx@.op == tx@.op && work.tx@.tx_id == tx@.tx_id
                &&& work.tx@.read_set == executor::read_keys(tx@.op)
                &&& work.tx@.write_set == executor::write_keys(tx@.op)
                &&& work.result_shard == answers
                &&& work.local_keys@.contains(key) <==> here
                &&& here ==> w.queues.contains_key(key) && w.queues[key].last() == tx@.tx_id
                &&& !here ==> (w.queues.contains_key(key) <==> v.queues.contains_key(key))
                &&& w.pending == v.pending.insert(tx@.tx_id)
                &&& work.active@.contains(shard) <==> shard == answers || exists|k: Path| #[trigger]
                    executor::write_keys(tx@.op).contains(k) && router::shard_of(v.shard_count, k)
                        == shard
                &&& work.read_sources@.contains(shard) <==> exists|k: Path| #[trigger]
                    executor::read_keys(tx@.op).contains(k) && router::shard_of(v.shard_count, k)
                        == shard
                &&& work.is_active <==> work.active@.contains(v.shard_id)
                &&& work.is_source <==> work.read_sources@.contains(v.shard_id)
            }
            &&& r matches Ok(None) ==> w == v
        }),
{
    let v = old(run)@;
    let derived = crate::engine::reorder::with_derived_sets(tx@);
    let keys = crate::engine::calvin::local_keys_of(v.shard_count, derived, v.shard_id);
    let answers = (tx@.tx_id as int % v.shard_count as int) as ShardId;
    assert(answers == crate::engine::aria::result_shard(tx@.tx_id, v.shard_count));
    queues::lemma_enqueue(v.queues, tx@.tx_id, keys, key);
    assert(keys.contains(key) <==> router::shard_of(v.shard_count, key) == v.shard_id && (
    executor::read_keys(tx@.op).contains(key) || executor::write_keys(tx@.op).contains(key)));
}

/// Two who ran the same transaction again must have come to the same result; that they
/// did not is an error. A record that was made is kept.
pub proof fn lemma_again_outcome_call(
    run: &mut AriaFallbackBatch,
    tx_id: TxId,
    keys: &OrdSet<Key>,
    outcome: Result<AriaFallbackCompletion>,
    grants: &mut Vec<(TxId, LockGrant)>,
    r: Result<()>,
)
    requires
        old(run).wf(),
        call_ensures(AriaFallbackBatch::on_outcome, (run, tx_id, keys, outcome, grants), r),
        forall|k: Path| #[trigger]
            keys@.contains(k) ==> lock::holds(old(run)@.queues, tx_id, k),
    ensures
        ({
            let v = old(run)@;
            let w = final(run)@;
            &&& w.pending == v.pending.remove(tx_id)
            &&& outcome is Err ==> r is Err
            &&& outcome matches Ok(AriaFallbackCompletion::Passive) ==> r is Ok && w.results
                == v.results
            &&& outcome matches Ok(AriaFallbackCompletion::Active { result, record }) ==> {
                &&& r is Err <==> v.active_results.contains_key(tx_id)
                    && v.active_results[tx_id] != result
                &&& r is Ok && record is Some ==> w.results == v.results.push(record->0)
                &&& r is Ok && record is None ==> w.results == v.results
                &&& w.active_results.contains_key(tx_id) && w.active_results[tx_id] == result
            }
        }),
{
}

/// A transaction that speculates waits, tells what it read, or gives up, as the slots that
/// it must see stand; where nothing is left to check it ends well.
pub proof fn lemma_due_call(
    run: SccRun,
    writes: &Vec<OrdSet<Key>>,
    base: &OrdMap<Key, ReadValue>,
    slots: &CommitSequence,
    r: Result<(SccRun, SccAction)>,
    key: Path,
    shard: ShardId,
)
    requires
        run.wf(),
        run.stage() is Effect || run.stage() is Staged || run.stage() is Condition,
        call_ensures(SccRun::on_due, (run, writes, base, slots), r),
        run.worker().participants.all@.finite(),
    ensures
        ({
            let w = run.worker();
            let seen = match (w.tx_plan.condition_max_pred_index, w.tx_plan.effect_max_pred_index) {
                (None, _) => true,
                (Some(_), None) => false,
                (Some(c), Some(e)) => c <= e,
            };
            run.stage() is Staged && seen <==> (r matches Ok((_, SccAction::End(_))))
        }),
        ({
            let w = run.worker();
            match r {
                Ok((next, SccAction::AwaitSlot(i))) => i < slots@.len()
                    && slots@[i as int] is Pending,
                Ok((next, SccAction::Send(msg, targets))) => {
                    &&& msg.batch_id == w.batch_id && msg.tx_id == w.tx@.tx_id
                    &&& msg.from_shard == w.shard_id && msg.status == LocalReadStatus::Success
                    &&& msg.reads@.contains_key(key) <==> w.local_read_keys@.contains(key)
                    &&& run.stage() is Effect <==> next.stage() is EffectReads
                    &&& run.stage() is Effect <==> msg.phase == ReadPhase::SccEffect
                    &&& !(run.stage() is Effect) <==> msg.phase == ReadPhase::SccCondition
                    &&& targets@.contains(shard) <==> w.participants.all@.contains(shard) && shard
                        != w.shard_id
                },
                Ok((next, SccAction::Refuse(msg, targets, end))) => {
                    &&& msg.status == LocalReadStatus::SpeculationFailed
                    &&& msg.tx_id == w.tx@.tx_id && msg.from_shard == w.shard_id
                    &&& targets@.contains(shard) <==> w.participants.all@.contains(shard) && shard
                        != w.shard_id
                    &&& workers::ends_failed(end)
                    &&& exists|i: int| 0 <= i < slots@.len() && #[trigger] slots@[i] is Failed
                },
                Ok((next, SccAction::End(end))) => {
                    workers::ends_well(w, end, run.stage()->Staged_0)
                },
                Ok(_) => false,
                Err(error) => !(error is SpeculationFailed),
            }
        }),
{
    let w = run.worker();
    let phase = if run.stage() is Effect {
        SccPhase::Effect
    } else {
        SccPhase::Condition
    };
    let n = read::prefix_len(w.tx_plan, phase);
    let s = read::state_of(base@.restrict(w.local_read_keys@));
    speculating::lemma_replay(s, slots@, read::key_sets(writes@), w.local_read_keys@, n);
    let others = w.participants.all@.remove(w.shard_id);
    collections::lemma_sorted_of_finite::<ShardId>(others);
    let order = collections::sorted::<ShardId>(others);
    assert(order.contains(shard) == order.to_set().contains(shard));
    let outcome = w.replayed(phase, writes@, base@, slots@);
    if let Ok((next, SccAction::Refuse(msg, targets, end))) = r {
        assert(slots@[outcome->Failed_0] is Failed);
    }
}

/// Once its reads are in, a transaction goes on if and only if its operation succeeds on
/// them and success was predicted, and otherwise fails; in the condition phase it ends.
/// Left out is a move of a path below itself.
pub proof fn lemma_reads_in_call(
    run: SccRun,
    r: Result<(SccRun, SccAction)>,
    s: State,
)
    requires
        run.wf(),
        run.stage() is EffectReads || run.stage() is ConditionReads,
        call_ensures(SccRun::on_sent, (run,), r),
        run.worker().tx@.op.valid(),
        !(run.worker().tx@.op matches FsOpView::Rename { src, dst } && path::strict_ancestor(
            src,
            dst,
        )),
        run.stage() matches SccStageView::EffectReads(v) ==> operations::reads_from(
            v.full_reads,
            s,
            run.worker().tx@.op,
        ),
        run.stage() matches SccStageView::ConditionReads(_, v) ==> operations::reads_from(
            v.full_reads,
            s,
            run.worker().tx@.op,
        ),
    ensures
        ({
            let w = run.worker();
            let right = outcomes::answer(s, w.tx@.op) == TxResult::Success
                && w.tx_plan.predicted_path == tables::success_path(w.tx@.op);
            match r {
                Ok((next, SccAction::Stage)) => run.stage() is EffectReads && right
                    && next.stage() is Executed,
                Ok((next, SccAction::End(end))) => {
                    &&& run.stage() is EffectReads ==> !right && workers::ends_failed(end)
                    &&& run.stage() is ConditionReads ==> if right {
                        workers::ends_well(w, end, run.stage()->ConditionReads_0)
                    } else {
                        workers::ends_failed(end)
                    }
                },
                Ok((next, SccAction::AwaitMessage(_))) => true,
                Ok((next, SccAction::Overflow)) => run.stage() is EffectReads,
                Ok(_) => false,
                Err(_) => true,
            }
        }),
{
    let w = run.worker();
    match run.stage() {
        SccStageView::EffectReads(v) => {
            outcomes::lemma_answer_from_reads(s, w.tx@.op, v.full_reads);
        },
        SccStageView::ConditionReads(_, v) => {
            conflicts::lemma_condition_from_state(s, w.tx@.op, v.full_reads);
        },
        _ => {},
    }
}

/// What is staged is counted, and holds no change to a key that is not one to write here.
pub proof fn lemma_staged_call(run: SccRun, r: Result<(SccRun, SccAction)>, i: int)
    requires
        run.wf(),
        run.stage() is Executed,
        call_ensures(SccRun::on_executed, (run,), r),
        r is Ok,
    ensures
        (r->Ok_0).1 is AwaitCondition,
        (r->Ok_0).0.stage() is Staged,
        (r->Ok_0).1->AwaitCondition_0 == (r->Ok_0).0.stage()->Staged_0.len(),
        0 <= i < (r->Ok_0).0.stage()->Staged_0.len() ==> run.worker().local_write_keys@.contains(
            (r->Ok_0).0.stage()->Staged_0[i].target(),
        ),
{
    let w = run.worker();
    let all = w.full_effect(run.stage()->Executed_0);
    let own = |o: delta::DeltaOpView| w.local_write_keys@.contains(o.target());
    let staged = (r->Ok_0).0.stage()->Staged_0;
    assert(staged == all.filter(own));
    if 0 <= i < staged.len() {
        all.lemma_filter_pred(own, i);
    }
}

/// A failure elsewhere ends the transaction here without success.
pub proof fn lemma_remote_failure_call(
    run: SccRun,
    msg: LocalReadResult,
    r: Result<(SccRun, SccAction)>,
)
    requires
        run.wf(),
        run.stage() is EffectReads || run.stage() is ConditionReads,
        call_ensures(SccRun::on_message, (run, msg), r),
        msg.status == LocalReadStatus::SpeculationFailed,
    ensures
        match r {
            Ok((next, SccAction::End(end))) => workers::ends_failed(end) && next.stage() is Over,
            Ok(_) => false,
            Err(error) => !(error is SpeculationFailed),
        },
{
}

/// A batch on a snapshot is settled once every shard has told who lost there. Those are
/// then known as failed and have run in vain; they are run again if there are any. The
/// order is noted for this batch alone.
pub proof fn lemma_aria_settle_call(
    run: &AriaBatch,
    known: &AriaBatchRegistry,
    orders: &mut OrdMap<BatchId, SccReorderRecord>,
    store: &mut RedbInMemoryInodeStore,
    r: Result<Option<AriaSettled>>,
    i: usize,
    other: BatchId,
)
    requires
        known.wf(),
        old(store).wf(),
        call_ensures(AriaBatch::settle, (run, known, orders, store), r),
        other != run@.batch.batch_id,
    ensures
        ({
            let v = known.state(run@.batch.batch_id);
            let id = run@.batch.batch_id;
            &&& r matches Ok(None) ==> final(store)@ == old(store)@ && final(orders)@
                == old(orders)@ && exists|s: ShardId|
                s < run@.shard_count && !(#[trigger] v.failures.contains_key(s))
            &&& r matches Ok(Some(settled)) ==> {
                &&& forall|s: ShardId|
                    s < run@.shard_count ==> #[trigger] v.failures.contains_key(s)
                &&& settled.failed_indices@.contains(i) <==> exists|s: ShardId| #[trigger]
                    v.failures.contains_key(s) && v.failures[s].contains(i)
                &&& settled.again is Some <==> exists|k: usize| #[trigger]
                    settled.failed_indices@.contains(k)
                &&& settled.again matches Some(again) ==> again@.batch_id == id
                &&& final(orders)@.contains_key(id) && !old(orders)@.contains_key(id)
                &&& final(orders)@[id]@.batch_id == id
                &&& settled.failed_indices@.contains(i) ==> i < run@.batch.txs.len()
            }
            &&& final(orders)@.contains_key(other) <==> old(orders)@.contains_key(other)
            &&& old(orders)@.contains_key(other) ==> final(orders)@[other] == old(orders)@[other]
        }),
{
    let v = known.state(run@.batch.batch_id);
    let failed = v.reported_failures();
    if let Ok(None) = r {
        let s = choose|s: ShardId|
            s < run@.shard_count && !(#[trigger] v.failures.dom().contains(s));
        assert(!v.failures.contains_key(s));
    }
    if let Ok(Some(settled)) = r {
        assert forall|s: ShardId| s < run@.shard_count implies #[trigger] v.failures.contains_key(
            s,
        ) by {
            assert(v.failures.dom().contains(s));
        }
        if failed.contains(i) {
            let s = choose|s: ShardId|
                v.failures.contains_key(s) && #[trigger] v.failures[s].contains(i);
            assert(v.failures.contains_key(s));
            assert(crate::indices::all_indices(run@.batch.txs.len()).contains(i));
        }
        if exists|s: ShardId| #[trigger] v.failures.contains_key(s) && v.failures[s].contains(i) {
            let s = choose|s: ShardId| #[trigger]
                v.failures.contains_key(s) && v.failures[s].contains(i);
            assert(v.failures[s].contains(i));
        }
        if settled.again is None {
            assert(forall|k: usize| !(#[trigger] settled.failed_indices@.contains(k)));
        } else if forall|k: usize| !(#[trigger] settled.failed_indices@.contains(k)) {
            assert(failed =~= Set::<usize>::empty());
        }
        assert(final(orders)@.dom().contains(run@.batch.batch_id));
    }
    if r is Ok {
        assert(final(orders)@.dom().contains(other) <==> old(orders)@.dom().contains(other));
    } else {
        assert(final(orders)@.dom().contains(other) <==> old(orders)@.dom().contains(other));
    }
}

/// A transaction under locks that needs none here reads at once; any other waits.
pub proof fn lemma_locked_begins_call(
    worker: LockedWorker,
    keys: &OrdSet<Key>,
    r: (LockedRun, LockedAction),
    key: Path,
)
    requires
        worker.wf(),
        call_ensures(LockedRun::begin, (worker, keys), r),
    ensures
        r.1 is Read || r.1 is AwaitGrant,
        r.1 is Read <==> forall|k: Path| !(#[trigger] keys@.contains(k)),
        r.1 is Read ==> (r.1->Read_0@.contains(key) <==> worker.tx@.read_set.contains(key)
            && router::shard_of(worker.layout.shard_count, key) == worker.shard_id),
        r.0.worker() == worker,
{
    if forall|k: Path| !(#[trigger] keys@.contains(k)) {
        assert(keys@.subset_of(Set::<Path>::empty()));
    }
    if keys@.subset_of(Set::<Path>::empty()) {
        assert forall|k: Path| !(#[trigger] keys@.contains(k)) by {
            if keys@.contains(k) {
                assert(Set::<Path>::empty().contains(k));
            }
        }
    }
}

/// What a transaction on a snapshot tells each shard once all its keys are known: the
/// result that it came to, the writes to keys of that shard, and whether that one answers.
pub proof fn lemma_snapshot_told_call(
    run: &AriaRun,
    r: Option<Vec<(ShardId, AriaStageOutcome)>>,
    s: State,
    i: int,
)
    requires
        run.wf(),
        call_ensures(AriaRun::finish, (run,), r),
        operations::reads_from(run@.reads, s, run@.tx.op),
        r is Some,
        0 <= i < r->0@.len(),
    ensures
        ({
            let v = run@;
            let target = (r->0@)[i].0;
            let o = (r->0@)[i].1@;
            let answers = v.tx.tx_id as int % v.shard_count as int;
            &&& o.batch_id == v.batch_id && o.tx_index == v.tx_index && o.tx_id == v.tx.tx_id
            &&& o.from_shard == v.shard_id
            &&& o.result == outcomes::answer(s, v.tx.op)
            &&& o.is_result_shard <==> target == answers
            &&& forall|k: int|
                0 <= k < o.writes.len() ==> router::shard_of(
                    v.shard_count,
                    (#[trigger] o.writes[k]).target(),
                ) == target
        }),
{
    let v = run@;
    outcomes::lemma_answer_from_reads(s, v.tx.op, v.reads);
    let output = executor::execute(v.tx.op, v.reads);
    let target = (r->0@)[i].0;
    let o = (r->0@)[i].1@;
    let targets = crate::engine::aria::coordinator::stage_targets(
        output.writes,
        v.tx.tx_id,
        v.shard_count,
    );
    let order = collections::sorted::<ShardId>(targets);
    assert((r->0@)[i].0 == order[i]);
    let here = |w: WriteOpView| router::shard_of(v.shard_count, w.target()) == target;
    assert(o.writes =~= output.writes.filter(here)) by {
        assert(executor::local_writes(output.writes, target, v.shard_count)
            =~= output.writes.filter(here));
    }
    assert forall|k: int| 0 <= k < o.writes.len() implies router::shard_of(
        v.shard_count,
        (#[trigger] o.writes[k]).target(),
    ) == target by {
        output.writes.lemma_filter_pred(here, k);
    }
}

} // verus!
