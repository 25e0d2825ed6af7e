//! Calls of a transaction that speculates on one shard.

use crate::collections;
use crate::collections::{OrdMap, OrdSet};
use crate::engine::reads::{LocalReadResult, ReadCollector};
use crate::engine::scc_worker::{SccCollect, SccEffect, SccRead, SccTerminal, SccWorker};
use crate::error::Result;
use crate::executor;
use crate::laws::calls::speculating;
use crate::laws::conflicts;
use crate::laws::operations;
use crate::laws::outcomes;
use crate::model::{
    FsOpView, Key, LocalReadStatus, ReadPhase, ReadValue, ShardId, TxExecutionOutput, TxResult,
};
use crate::path;
use crate::path::Path;
use crate::scc::commit::CommitSequence;
use crate::scc::delta;
use crate::scc::delta::{DeltaOpView, TxDelta};
use crate::scc::plan::SccPhase;
use crate::scc::read;
use crate::scc::tables;
use crate::state;
use crate::state::State;
use vstd::prelude::*;

verus! {

/// An end without success: the slot says so, and there is no result and no answer.
pub open spec fn ends_failed(end: SccTerminal) -> bool {
    end.slot@ is Failed && end.record is None && !end.answers_client && end.fault is Some
}

/// An end with success: the slot holds the changes of this shard, if there are any; the
/// result is told by a shard that runs the transaction, and the client is answered by the
/// one that is to answer.
pub open spec fn ends_well(worker: SccWorker, end: SccTerminal, ops: Seq<DeltaOpView>) -> bool {
    &&& end.fault is None
    &&& ops.len() == 0 ==> end.slot@ is NoOp
    &&& ops.len() > 0 ==> end.slot@ is Delta && end.slot@->Delta_0 == ops
    &&& end.record is Some <==> worker.participants.active@.contains(worker.shard_id)
    &&& end.record is Some ==> end.record->0.tx_id == worker.tx@.tx_id
        && end.record->0.shard_id == worker.shard_id && end.record->0.result == TxResult::Success
    &&& end.answers_client <==> worker.result_shard == worker.shard_id
}

/// Reads are sent to all others that take part, each once, in order.
pub proof fn lemma_targets_call(worker: &SccWorker, r: Vec<ShardId>, other: ShardId, i: int, j: int)
    requires
        call_ensures(SccWorker::targets, (worker,), r),
        worker.participants.all@.finite(),
    ensures
        r@.contains(other) <==> worker.participants.all@.contains(other) && other
            != worker.shard_id,
        0 <= i < j < r@.len() ==> r@[i] < r@[j],
{
    let others = worker.participants@.all.remove(worker.shard_id);
    collections::lemma_sorted_of_finite::<ShardId>(others);
    assert(r@.contains(other) == r@.to_set().contains(other));
    if 0 <= i < j < r@.len() {
        assert(<ShardId as collections::SortKey>::before(r@[i], r@[j]));
    }
}

/// A read waits for a slot that it must see and that is pending, fails on one that failed
/// and tells the others so, and otherwise tells them what it read: of each of its keys
/// here, and of no other.
pub proof fn lemma_read_call(
    worker: &SccWorker,
    phase: SccPhase,
    writes: &Vec<OrdSet<Key>>,
    base: &OrdMap<Key, ReadValue>,
    slots: &CommitSequence,
    r: Result<SccRead>,
    key: Path,
)
    requires
        worker.wf(),
        call_ensures(SccWorker::read, (worker, phase, writes, base, slots), r),
    ensures
        ({
            let named = match phase {
                SccPhase::Effect => ReadPhase::SccEffect,
                SccPhase::Condition => ReadPhase::SccCondition,
            };
            match r {
                Ok(SccRead::WaitFor(i)) => i < slots@.len() && slots@[i as int] is Pending,
                Ok(SccRead::Exchange(msg, collector)) => {
                    &&& msg.batch_id == worker.batch_id && msg.tx_id == worker.tx@.tx_id
                    &&& msg.phase == named && msg.from_shard == worker.shard_id
                    &&& msg.status == LocalReadStatus::Success
                    &&& msg.reads@.contains_key(key) <==> worker.local_read_keys@.contains(key)
                    &&& collector@.full_reads == msg.reads@
                    &&& collector@.expected == worker.participants.all@.remove(worker.shard_id)
                    &&& collector@.read_set == worker.tx@.read_set
                    &&& collector@.phase == named
                },
                Ok(SccRead::Refuse(msg, end)) => {
                    &&& msg.batch_id == worker.batch_id && msg.tx_id == worker.tx@.tx_id
                    &&& msg.phase == named && msg.from_shard == worker.shard_id
                    &&& msg.status == LocalReadStatus::SpeculationFailed
                    &&& !msg.reads@.contains_key(key)
                    &&& ends_failed(end)
                    &&& exists|i: int| 0 <= i < slots@.len() && #[trigger] slots@[i] is Failed
                },
                Err(error) => !(error is SpeculationFailed),
            }
        }),
{
    let n = read::prefix_len(worker.tx_plan, phase);
    let s = read::state_of(base@.restrict(worker.local_read_keys@));
    let by_tx = read::key_sets(writes@);
    speculating::lemma_replay(s, slots@, by_tx, worker.local_read_keys@, n);
    let outcome = worker.replayed(phase, writes@, base@, slots@);
    if let Ok(SccRead::Refuse(msg, end)) = r {
        assert(slots@[outcome->Failed_0] is Failed);
    }
}

/// A failure elsewhere is one here; what is read elsewhere is added.
pub proof fn lemma_collect_call(
    worker: &SccWorker,
    collector: ReadCollector,
    msg: LocalReadResult,
    r: Result<SccCollect>,
)
    requires
        collector@.phase == ReadPhase::SccEffect || collector@.phase == ReadPhase::SccCondition,
        call_ensures(SccWorker::collect, (worker, collector, msg), r),
    ensures
        match r {
            Ok(SccCollect::More(next)) => {
                &&& msg.status == LocalReadStatus::Success
                &&& next@.received == collector@.received.insert(msg.from_shard)
                &&& next@.full_reads == collector@.full_reads.union_prefer_right(msg.reads@)
                &&& next@.expected == collector@.expected
            },
            Ok(SccCollect::Failed(end)) => {
                &&& msg.status == LocalReadStatus::SpeculationFailed
                &&& collector@.expected.contains(msg.from_shard)
                &&& ends_failed(end)
            },
            Err(error) => !(error is SpeculationFailed),
        },
{
}

/// A transaction stays on its path if and only if its operation succeeds and success is
/// what was predicted; otherwise it fails here.
pub proof fn lemma_effect_call(
    worker: &SccWorker,
    reads: &OrdMap<Key, ReadValue>,
    r: SccEffect,
    s: State,
)
    requires
        call_ensures(SccWorker::effect, (worker, reads), r),
        operations::reads_from(reads@, s, worker.tx@.op),
    ensures
        ({
            let op = worker.tx@.op;
            let predicted = worker.tx_plan.predicted_path == tables::success_path(op);
            let succeeds = outcomes::answer(s, op) == TxResult::Success;
            match r {
                SccEffect::OnPath(output) => {
                    &&& succeeds && predicted
                    &&& output@.result == TxResult::Success
                    &&& state::apply_writes(s, output@.writes) == outcomes::leaves(s, op)
                },
                SccEffect::Failed(end) => !(succeeds && predicted) && ends_failed(end),
                SccEffect::Overflow => true,
            }
        }),
{
    outcomes::lemma_answer_from_reads(s, worker.tx@.op, reads@);
}

/// What is staged of a transaction are its changes to the keys that it may write here, and
/// none to others.
pub proof fn lemma_local_effect_call(
    worker: &SccWorker,
    reads: &OrdMap<Key, ReadValue>,
    output: TxExecutionOutput,
    r: Result<TxDelta>,
    op: DeltaOpView,
)
    requires
        output@ == executor::execute(worker.tx@.op, reads@),
        call_ensures(SccWorker::local_effect, (worker, reads, output), r),
        r is Ok,
    ensures
        output@.result == TxResult::Success,
        r->Ok_0@.contains(op) <==> worker.local_write_keys@.contains(op.target())
            && delta::changes(
            collections::sorted::<Key>(worker.tx@.write_set),
            reads@,
            output@.writes,
        ).contains(op),
{
    let all = worker.full_effect(reads@);
    let own = |o: DeltaOpView| worker.local_write_keys@.contains(o.target());
    assert(r->Ok_0@ == all.filter(own));
    if all.contains(op) && own(op) {
        let i = choose|i: int| 0 <= i < all.len() && all[i] == op;
        all.lemma_filter_contains(own, i);
    }
    if all.filter(own).contains(op) {
        all.lemma_filter_contains_rev(own, op);
        let i = choose|i: int| 0 <= i < all.filter(own).len() && all.filter(own)[i] == op;
        all.lemma_filter_pred(own, i);
    }
}

/// The condition need not be checked if and only if all that it must see was seen when the
/// effect was worked out; the transaction then ends well.
pub proof fn lemma_condition_due_call(worker: &SccWorker, staged: &TxDelta, r: Option<SccTerminal>)
    requires
        call_ensures(SccWorker::condition_due, (worker, staged), r),
    ensures
        r is None <==> worker.tx_plan.condition_max_pred_index is Some && (
        worker.tx_plan.effect_max_pred_index is None || worker.tx_plan.effect_max_pred_index->0
            < worker.tx_plan.condition_max_pred_index->0),
        r matches Some(end) ==> ends_well(*worker, end, staged@),
{
}

/// A transaction whose condition is checked ends well if and only if its operation would
/// succeed on what is read then and success is what was predicted; otherwise it fails.
/// Left out is a move of a path below itself.
pub proof fn lemma_condition_call(
    worker: &SccWorker,
    staged: TxDelta,
    reads: &OrdMap<Key, ReadValue>,
    r: Result<SccTerminal>,
    s: State,
)
    requires
        call_ensures(SccWorker::condition, (worker, staged, reads), r),
        operations::reads_from(reads@, s, worker.tx@.op),
        worker.tx@.op.valid(),
        !(worker.tx@.op matches FsOpView::Rename { src, dst } && path::strict_ancestor(src, dst)),
    ensures
        r is Ok,
        ({
            let op = worker.tx@.op;
            let predicted = worker.tx_plan.predicted_path == tables::success_path(op);
            let succeeds = outcomes::answer(s, op) == TxResult::Success;
            if succeeds && predicted {
                ends_well(*worker, r->Ok_0, staged@)
            } else {
                ends_failed(r->Ok_0)
            }
        }),
{
    conflicts::lemma_condition_from_state(s, worker.tx@.op, reads@);
}

} // verus!
