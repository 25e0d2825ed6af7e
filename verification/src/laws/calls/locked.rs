//! Calls of running a batch under locks.

use crate::collections;
use crate::collections::{OrdMap, OrdSet};
use crate::engine::batch;
use crate::engine::batch::BatchExecutionSummary;
use crate::engine::calvin::{CalvinBatch, CalvinStep, CalvinWork};
use crate::engine::locked_run::{
    completion, LockedAction, LockedRun, LockedStageView, LockedWorker,
};
use crate::engine::reads::LocalReadResult;
use crate::error::Result;
use crate::executor;
use crate::laws::operations;
use crate::laws::outcomes;
use crate::lock;
use crate::lock::LockGrant;
use crate::model;
use crate::model::{
    Batch, Key, LocalReadStatus, OrderedTx, ReadPhase, ReadValue, ShardId, TxId, TxResult,
    TxResultRecord, WriteOpView,
};
use crate::path::Path;
use crate::router;
use crate::router::ShardLayout;
use crate::state::State;
use vstd::prelude::*;

verus! {

/// A batch begins if and only if it is in order; nobody waits and nothing is known yet.
pub proof fn lemma_begin_call(b: &Batch, layout: ShardLayout, shard: ShardId, r: Result<CalvinBatch>)
    requires
        layout.wf(),
        call_ensures(CalvinBatch::begin, (b, layout, shard), r),
    ensures
        r is Ok <==> (forall|i: int|
            0 <= i < b@.txs.len() ==> (#[trigger] b@.txs[i]).batch_index == i) && forall|
            i: int,
            j: int,
        |
            0 <= i < j < b@.txs.len() ==> (#[trigger] b@.txs[i]).tx_id != (
            #[trigger] b@.txs[j]).tx_id,
        r matches Ok(run) ==> {
            &&& run@.batch_id == b@.batch_id
            &&& run@.shard_id == shard
            &&& run@.queues.dom() == Set::<Path>::empty()
            &&& run@.pending == Set::<TxId>::empty()
            &&& run@.results.len() == 0
        },
{
    if let Ok(run) = r {
        assert(run@.queues.dom() =~= Set::<Path>::empty());
    }
}

/// A transaction is taken in if and only if its sets are those of its operation. There is
/// work for it if and only if one of its keys lives here: it then lines up last at each of
/// those, and nowhere else. This shard answers if it has the lowest number of those that
/// run the transaction.
pub proof fn lemma_take_in_call(
    run: &mut CalvinBatch,
    tx: &OrderedTx,
    r: Result<CalvinStep>,
    key: Path,
    other: ShardId,
)
    requires
        old(run).wf(),
        call_ensures(CalvinBatch::take_in, (run, tx), r),
    ensures
        r is Ok <==> tx@.read_set == executor::read_keys(tx@.op) && tx@.write_set
            == executor::write_keys(tx@.op),
        r is Err ==> final(run)@ == old(run)@,
        r matches Ok(step) ==> {
            let v = old(run)@;
            let w = final(run)@;
            let here = |k: Path|
                (tx@.read_set.contains(k) || tx@.write_set.contains(k)) && router::shard_of(
                    v.shard_count,
                    k,
                ) == v.shard_id;
            let runs = router::participants_of(v.shard_count, tx@.read_set, tx@.write_set);
            &&& here(key) ==> step.work is Some
            &&& step.work is Some ==> exists|k: Path| #[trigger]
                step.work->0.local_keys@.contains(k) && here(k)
            &&& step.work is Some ==> (step.work->0.local_keys@.contains(key) <==> here(key))
            &&& step.work is Some ==> (step.work->0.active <==> runs.active.contains(v.shard_id))
            &&& step.work is Some ==> runs.active.contains(step.work->0.result_shard) && (
            runs.active.contains(other) ==> step.work->0.result_shard <= other)
            &&& step.responsible ==> runs.active.contains(v.shard_id)
            &&& step.responsible && runs.active.contains(other) ==> v.shard_id <= other
            &&& here(key) ==> w.queues.contains_key(key) && w.queues[key].last() == tx@.tx_id
            &&& here(key) && v.queues.contains_key(key) ==> w.queues[key].drop_last()
                == v.queues[key]
            &&& !here(key) ==> (w.queues.contains_key(key) <==> v.queues.contains_key(key))
            &&& !here(key) && v.queues.contains_key(key) ==> w.queues[key] == v.queues[key]
            &&& step.work is Some ==> w.pending == v.pending.insert(tx@.tx_id)
            &&& w.results == v.results
        },
{
    if let Ok(step) = r {
        let v = old(run)@;
        let keys = router::local_part(
            v.shard_count,
            tx@.read_set.union(tx@.write_set),
            v.shard_id,
        );
        assert(keys.contains(key) <==> (tx@.read_set.contains(key) || tx@.write_set.contains(key))
            && router::shard_of(v.shard_count, key) == v.shard_id);
        if step.work is Some {
            if forall|k: Path| !keys.contains(k) {
                assert(keys =~= Set::<Path>::empty());
            }
            let k = choose|k: Path| keys.contains(k);
            assert(step.work->0.local_keys@.contains(k));
        }
        crate::laws::queues::lemma_enqueue(v.queues, tx@.tx_id, keys, key);
    }
}

/// Who works for a transaction knows the batch, the shard and the transaction, who runs it
/// and who takes part in it.
pub proof fn lemma_worker_call(
    run: &CalvinBatch,
    tx: &OrderedTx,
    work: &CalvinWork,
    r: LockedWorker,
)
    requires
        run.wf(),
        call_ensures(CalvinBatch::worker, (run, tx, work), r),
    ensures
        r.phase == ReadPhase::Calvin,
        r.batch_id == run@.batch_id && r.shard_id == run@.shard_id,
        r.tx@ == tx@,
        r.active@ == work.participants.active@,
        r.sources@ == work.participants.all@,
{
}

/// Once a worker is done its locks are passed on and nobody waits for it any more; its
/// record is kept, and none where it made none.
pub proof fn lemma_outcome_call(
    run: &mut CalvinBatch,
    tx_id: TxId,
    keys: &OrdSet<Key>,
    outcome: Result<Option<TxResultRecord>>,
    grants: &mut Vec<(TxId, LockGrant)>,
    r: Result<()>,
)
    requires
        old(run).wf(),
        call_ensures(CalvinBatch::on_outcome, (run, tx_id, keys, outcome, grants), r),
        forall|k: Path| #[trigger]
            keys@.contains(k) ==> lock::holds(old(run)@.queues, tx_id, k),
    ensures
        r is Ok <==> outcome is Ok,
        final(run)@.pending == old(run)@.pending.remove(tx_id),
        forall|k: Path| #[trigger]
            keys@.contains(k) && final(run)@.queues.contains_key(k)
                ==> seq![tx_id] + final(run)@.queues[k] == old(run)@.queues[k],
        outcome matches Ok(Some(record)) ==> final(run)@.results == old(run)@.results.push(record),
        !(outcome matches Ok(Some(_))) ==> final(run)@.results == old(run)@.results,
{
    assert forall|k: Path| #[trigger]
        keys@.contains(k)
            && final(run)@.queues.contains_key(k) implies seq![tx_id] + final(run)@.queues[k]
                == old(run)@.queues[k] by {
        crate::laws::queues::lemma_let_go(old(run)@.queues, tx_id, keys@, k);
    }
}

/// A batch is done when nobody is waited for; its report is by transaction and shard.
pub proof fn lemma_calvin_finish_call(
    run: CalvinBatch,
    done: bool,
    r: BatchExecutionSummary,
    i: int,
    j: int,
)
    requires
        call_ensures(CalvinBatch::is_done, (&run,), done),
        call_ensures(CalvinBatch::finish, (run,), r),
    ensures
        done <==> forall|t: TxId| !#[trigger] run@.pending.contains(t),
        r.batch_id == run@.batch_id && r.shard_id == run@.shard_id,
        r.tx_results@.len() == run@.results.len(),
        0 <= i < j < r.tx_results@.len() ==> r.tx_results@[i].tx_id < r.tx_results@[j].tx_id || (
        r.tx_results@[i].tx_id == r.tx_results@[j].tx_id && r.tx_results@[i].shard_id
            <= r.tx_results@[j].shard_id),
{
    if forall|t: TxId| !#[trigger] run@.pending.contains(t) {
        assert(run@.pending =~= Set::<TxId>::empty());
    }
    if 0 <= i < j < r.tx_results@.len() {
        assert(batch::not_after(r.tx_results@[i], r.tx_results@[j]));
    }
}

/// A transaction reads when it holds all its locks, and not before; it reads those of its
/// keys that live here.
pub proof fn lemma_lock_all_call(
    run: LockedRun,
    grant: &LockGrant,
    r: Result<(LockedRun, LockedAction)>,
    key: Path,
)
    requires
        run.wf(),
        run.stage() is Locking,
        call_ensures(LockedRun::on_grant, (run, grant), r),
    ensures
        ({
            let wait = run.stage()->Locking_0;
            &&& r is Ok <==> wait.keys.contains(grant@) && !wait.granted.contains(grant@)
            &&& r matches Ok((next, action)) ==> {
                &&& next.worker() == run.worker()
                &&& action is Read || action is AwaitGrant
                &&& action is Read <==> forall|k: Path| #[trigger]
                    wait.keys.contains(k) ==> wait.granted.contains(k) || k == grant@
                &&& action is Read ==> next.stage() is Reading && (action->Read_0@.contains(key)
                    <==> run.worker().tx@.read_set.contains(key) && router::shard_of(
                    run.worker().layout.shard_count,
                    key,
                ) == run.worker().shard_id)
                &&& action is AwaitGrant ==> next.stage() is Locking
                    && next.stage()->Locking_0.granted == wait.granted.insert(grant@)
                    && next.stage()->Locking_0.keys == wait.keys
            }
        }),
{
    let wait = run.stage()->Locking_0;
    if let Ok((next, action)) = r {
        let granted = wait.granted.insert(grant@);
        if wait.keys.subset_of(granted) {
            assert forall|k: Path| #[trigger] wait.keys.contains(k) implies wait.granted.contains(
                k,
            ) || k == grant@ by {
                assert(granted.contains(k));
            }
        }
        if forall|k: Path| #[trigger]
            wait.keys.contains(k) ==> wait.granted.contains(k) || k == grant@ {
            assert(wait.keys.subset_of(granted));
        }
    }
}

/// What a shard read is told to all others that run the transaction, as it was read, if
/// the shard is one whose reads are needed.
pub proof fn lemma_send_reads_call(
    run: LockedRun,
    reads: OrdMap<Key, ReadValue>,
    r: Result<(LockedRun, LockedAction)>,
    other: ShardId,
)
    requires
        run.wf(),
        run.stage() == LockedStageView::Reading,
        call_ensures(LockedRun::on_reads, (run, reads), r),
        run.worker().sources@.contains(run.worker().shard_id),
        run.worker().active@.finite(),
    ensures
        ({
            let w = run.worker();
            &&& r matches Ok((next, LockedAction::Send(msg, targets)))
            &&& next.stage() is Sending && next.stage()->Sending_0 == reads@
            &&& msg.batch_id == w.batch_id && msg.tx_id == w.tx@.tx_id && msg.phase == w.phase
            &&& msg.from_shard == w.shard_id && msg.status == LocalReadStatus::Success
            &&& msg.reads@ == reads@
            &&& targets@.contains(other) <==> w.active@.contains(other) && other != w.shard_id
        }),
{
    let w = run.worker();
    let others = w.active@.remove(w.shard_id);
    collections::lemma_sorted_of_finite::<ShardId>(others);
    if let Ok((next, LockedAction::Send(msg, targets))) = r {
        assert(targets@.contains(other) == targets@.to_set().contains(other));
    }
}

/// Once all reads are in, the transaction is run on them: it ends with what its operation
/// answers, and this shard writes what of its writes is to keys here. A shard that does
/// not run it is done when it has sent its reads.
pub proof fn lemma_sent_call(
    run: LockedRun,
    r: Result<(LockedRun, LockedAction)>,
    s: State,
    write: WriteOpView,
)
    requires
        run.wf(),
        run.stage() is Sending,
        call_ensures(LockedRun::on_sent, (run,), r),
        operations::reads_from(run.stage()->Sending_0, s, run.worker().tx@.op),
    ensures
        ({
            let w = run.worker();
            let reads = run.stage()->Sending_0;
            let alone = forall|o: ShardId| #[trigger]
                w.sources@.contains(o) ==> o == w.shard_id;
            &&& !w.active@.contains(w.shard_id) ==> (r matches Ok((_, LockedAction::Passive)))
            &&& w.active@.contains(w.shard_id) ==> {
                &&& (r matches Ok((next, LockedAction::AwaitMessage))) ==> !alone
                &&& !alone ==> (r matches Ok((_, LockedAction::AwaitMessage)))
                &&& r matches Ok((next, LockedAction::Write(writes))) ==> {
                    &&& next.stage() is Writing
                    &&& next.stage()->Writing_0 == outcomes::answer(s, w.tx@.op)
                    &&& model::write_views(writes@) == executor::local_writes(
                        executor::execute(w.tx@.op, reads).writes,
                        w.shard_id,
                        w.layout.shard_count,
                    )
                }
            }
        }),
{
    let w = run.worker();
    let reads = run.stage()->Sending_0;
    outcomes::lemma_answer_from_reads(s, w.tx@.op, reads);
    let v = w.gathering(reads);
    if forall|o: ShardId| #[trigger] w.sources@.contains(o) ==> o == w.shard_id {
        assert(v.expected.subset_of(v.received));
    } else {
        let o = choose|o: ShardId| #[trigger] w.sources@.contains(o) && o != w.shard_id;
        assert(v.expected.contains(o));
        assert(!v.received.contains(o));
    }
}

/// A message of another shard is taken as the gathering takes it; when it is the last the
/// transaction is run, and until then it waits for more.
pub proof fn lemma_message_call(
    run: LockedRun,
    msg: LocalReadResult,
    r: Result<(LockedRun, LockedAction)>,
    s: State,
)
    requires
        run.wf(),
        run.stage() is Gathering,
        call_ensures(LockedRun::on_message, (run, msg), r),
        operations::reads_from(
            run.stage()->Gathering_0.full_reads.union_prefer_right(msg.reads@),
            s,
            run.worker().tx@.op,
        ),
    ensures
        ({
            let v = run.stage()->Gathering_0;
            let last = forall|o: ShardId| #[trigger]
                v.expected.contains(o) ==> v.received.contains(o) || o == msg.from_shard;
            &&& !v.accepts(msg) ==> r is Err
            &&& v.accepts(msg) && !last ==> (r matches Ok((_, LockedAction::AwaitMessage)))
            &&& v.accepts(msg) && last ==> !(r matches Ok((_, LockedAction::AwaitMessage)))
            &&& r matches Ok((next, LockedAction::Write(writes))) ==> next.stage() is Writing
                && next.stage()->Writing_0 == outcomes::answer(s, run.worker().tx@.op)
        }),
{
    let v = run.stage()->Gathering_0;
    let w = v.with(msg);
    outcomes::lemma_answer_from_reads(s, run.worker().tx@.op, w.full_reads);
    if v.accepts(msg) {
        if forall|o: ShardId| #[trigger]
            v.expected.contains(o) ==> v.received.contains(o) || o == msg.from_shard {
            assert(w.expected.subset_of(w.received));
        } else {
            let o = choose|o: ShardId| #[trigger]
                v.expected.contains(o) && !v.received.contains(o) && o != msg.from_shard;
            assert(w.expected.contains(o) && !w.received.contains(o));
        }
    }
}

/// What is written decides nothing any more: the result is the one that was come to, and
/// the record names the transaction, this shard and that result.
pub proof fn lemma_written_call(
    run: LockedRun,
    r: TxResult,
    tx: &OrderedTx,
    answers: ShardId,
    shard: ShardId,
    end: (TxResultRecord, bool),
)
    requires
        run.stage() is Writing,
        call_ensures(LockedRun::on_written, (run,), r),
        call_ensures(completion, (tx, r, answers, shard), end),
    ensures
        r == run.stage()->Writing_0,
        end.0.tx_id == tx@.tx_id && end.0.shard_id == shard && end.0.result == r,
        end.1 <==> answers == shard,
{
}

} // verus!
