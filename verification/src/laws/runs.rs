//! What runs of one transaction on several shards make of each other's reads.

use crate::collections;
use crate::engine::calvin;
use crate::engine::locked_run::{LockedAction, LockedRun, LockedStageView, LockedWorker};
use crate::engine::reads::{CollectorView, LocalReadResult};
use crate::engine::scc_run::{SccAction, SccRun, SccSight, SccStageView};
use crate::engine::scc_worker;
use crate::engine::scc_worker::SccWorker;
use crate::error::{Error, Result, SpeculationFault};
use crate::executor;
use crate::laws::planning;
use crate::laws::shards;
use crate::laws::speculation;
use crate::model;
use crate::model::{Key, LocalReadStatus, OrderedTxView, ShardId, TxResult};
use crate::path::Path;
use crate::router;
use crate::scc::commit::SlotView;
use crate::scc::delta;
use crate::scc::delta::DeltaOpView;
use crate::scc::plan;
use crate::scc::plan::{SccBatchPlan, SccPhase};
use crate::scc::read;
use crate::scc::tables;
use crate::serial;
use crate::state;
use crate::state::State;
use vstd::prelude::*;

verus! {

/// Two shards run the same transaction under locks.
pub open spec fn same_locked_work(a: LockedWorker, b: LockedWorker) -> bool {
    &&& a.phase == b.phase
    &&& a.batch_id == b.batch_id
    &&& a.layout.shard_count == b.layout.shard_count
    &&& a.tx@ == b.tx@
    &&& a.active@ == b.active@
    &&& a.sources@ == b.sources@
}

/// Two shards run the same transaction ahead.
pub open spec fn same_scc_work(a: SccWorker, b: SccWorker) -> bool {
    &&& a.batch_id == b.batch_id
    &&& a.layout.shard_count == b.layout.shard_count
    &&& a.tx@ == b.tx@
    &&& a.tx_plan == b.tx_plan
    &&& a.participants@ == b.participants@
}

/// `v` gathers what `start` began to gather.
pub open spec fn grown_from(v: CollectorView, start: CollectorView) -> bool {
    &&& v.phase == start.phase
    &&& v.batch_id == start.batch_id
    &&& v.tx_id == start.tx_id
    &&& v.shard_count == start.shard_count
    &&& v.read_set == start.read_set
    &&& v.expected == start.expected
}

/// The reads of a shard that are not known yet bring nothing that is.
proof fn lemma_reads_are_new(v: CollectorView, msg: LocalReadResult, s: State, own: ShardId)
    requires
        shards::gathered(v, s, own),
        !v.received.contains(msg.from_shard),
        msg.from_shard != own,
        msg.reads@ == state::reads_of(
            s,
            router::local_part(v.shard_count, v.read_set, msg.from_shard),
        ),
    ensures
        v.has_keys(msg),
        v.keys_new(msg),
{
    let part = router::local_part(v.shard_count, v.read_set, msg.from_shard);
    assert(msg.reads@.dom() =~= part);
    assert forall|k: Path| !(msg.reads@.dom().contains(k) && v.full_reads.dom().contains(k)) by {
        if msg.reads@.dom().contains(k) {
            assert(router::shard_of(v.shard_count, k) == msg.from_shard);
            assert(!shards::known_shards(v, own).contains(msg.from_shard));
        }
    }
    assert(msg.reads@.dom().disjoint(v.full_reads.dom()));
}

/// What a shard under locks sends of its reads is taken in by every other shard that
/// waits for it.
pub proof fn lemma_locked_reads_accepted(
    a: LockedWorker,
    b: LockedWorker,
    s: State,
    v: CollectorView,
    msg: LocalReadResult,
)
    requires
        same_locked_work(a, b),
        a.shard_id != b.shard_id,
        b.sources@.contains(a.shard_id),
        grown_from(v, b.gathering(v.full_reads)),
        shards::gathered(v, s, b.shard_id),
        !v.received.contains(a.shard_id),
        a.is_message(
            msg,
            state::reads_of(
                s,
                router::local_part(a.layout.shard_count, a.tx@.read_set, a.shard_id),
            ),
        ),
    ensures
        v.accepts(msg),
{
    lemma_reads_are_new(v, msg, s, b.shard_id);
    assert(v.expected.contains(msg.from_shard));
}

/// A transaction under locks that has all its reads of a state is refused nothing: it
/// writes on its shard the part of the state that a serial run leaves there, and ends
/// with the result of that run.
pub proof fn lemma_locked_run_is_part(
    worker: LockedWorker,
    s: State,
    v: CollectorView,
    r: Result<(LockedRun, LockedAction)>,
)
    requires
        calvin::sets_match(worker.tx@),
        grown_from(v, worker.gathering(v.full_reads)),
        shards::gathered(v, s, worker.shard_id),
        v.expected.subset_of(v.received),
        router::shards_of(worker.layout.shard_count, worker.tx@.read_set).subset_of(
            worker.sources@,
        ),
        !executor::overflows(worker.tx@.op, state::reads_of(s, worker.tx@.read_set)),
        worker.after_reads(v, r),
    ensures
        r is Ok,
        r->Ok_0.1 is Write,
        r->Ok_0.0.stage() == LockedStageView::Writing(
            executor::execute(worker.tx@.op, state::reads_of(s, worker.tx@.read_set)).result,
        ),
        state::apply_writes(
            shards::held_by(s, worker.layout.shard_count, worker.shard_id),
            model::write_views(r->Ok_0.1->Write_0@),
        ) == shards::held_by(
            serial::run_tx(s, worker.tx@),
            worker.layout.shard_count,
            worker.shard_id,
        ),
{
    let count = worker.layout.shard_count;
    let tx = worker.tx@;
    assert(router::shards_of(v.shard_count, v.read_set).remove(worker.shard_id).subset_of(
        v.expected,
    ));
    shards::lemma_gathering_ends(v, s, worker.shard_id);
    let writes = executor::execute(tx.op, v.full_reads).writes;
    if r is Err {
        planning::lemma_no_stray_write(tx, v.full_reads, count, worker.shard_id, r->Err_0);
    }
    shards::lemma_writes_on_shard(s, writes, count, worker.shard_id);
}

/// What a shard that runs ahead sends of its reads is taken in by every other shard that
/// waits for it.
pub proof fn lemma_scc_reads_accepted(
    a: SccWorker,
    b: SccWorker,
    phase: SccPhase,
    s: State,
    v: CollectorView,
    msg: LocalReadResult,
)
    requires
        same_scc_work(a, b),
        a.shard_id != b.shard_id,
        b.participants@.all.contains(a.shard_id),
        grown_from(v, b.gathering(phase, v.full_reads)),
        shards::gathered(v, s, b.shard_id),
        !v.received.contains(a.shard_id),
        a.is_message(
            msg,
            scc_worker::read_phase(phase),
            LocalReadStatus::Success,
            state::reads_of(
                s,
                router::local_part(a.layout.shard_count, a.tx@.read_set, a.shard_id),
            ),
        ),
    ensures
        v.accepts(msg),
{
    lemma_reads_are_new(v, msg, s, b.shard_id);
    assert(v.expected.contains(msg.from_shard));
}

/// A failure that a shard tells of fails every other shard that waits for its reads.
pub proof fn lemma_failure_spreads(
    a: SccWorker,
    b: SccRun,
    phase: SccPhase,
    v: CollectorView,
    msg: LocalReadResult,
    r: Result<(SccRun, SccAction)>,
)
    requires
        same_scc_work(a, b.worker()),
        a.shard_id != b.worker().shard_id,
        b.worker().participants@.all.contains(a.shard_id),
        grown_from(v, b.worker().gathering(phase, v.full_reads)),
        !v.received.contains(a.shard_id),
        a.is_message(
            msg,
            scc_worker::read_phase(phase),
            LocalReadStatus::SpeculationFailed,
            Map::empty(),
        ),
        b.not_taken(v, msg, r),
    ensures
        !v.accepts(msg),
        r is Ok,
        r->Ok_0.1 is End,
        b.worker().is_failure(
            r->Ok_0.1->End_0,
            SpeculationFault::RemoteFailure {
                tx_id: b.worker().tx@.tx_id,
                phase: scc_worker::read_phase(phase),
                from_shard: a.shard_id,
            },
        ),
{
    assert(v.is_routed(msg) && v.is_new_source(msg));
}

/// All shards that run a transaction ahead on the same state come to the same: it fails
/// everywhere where it does not succeed on that state, and is staged everywhere where it
/// does; each shard stages its part of the one effect.
pub proof fn lemma_scc_run_is_part(
    worker: SccWorker,
    s: State,
    v: CollectorView,
    r: Result<(SccRun, SccAction)>,
    then: Result<(SccRun, SccAction)>,
)
    requires
        calvin::sets_match(worker.tx@),
        worker.tx@.op.valid(),
        worker.tx_plan.predicted_path == tables::success_path(worker.tx@.op),
        grown_from(v, worker.gathering(SccPhase::Effect, v.full_reads)),
        shards::gathered(v, s, worker.shard_id),
        v.expected.subset_of(v.received),
        router::shards_of(worker.layout.shard_count, worker.tx@.read_set).subset_of(
            worker.participants@.all,
        ),
        !executor::overflows(worker.tx@.op, state::reads_of(s, worker.tx@.read_set)),
        worker.after_effect_reads(v, r),
        r matches Ok((run, SccAction::Stage)) ==> worker.after_execution(
            run.stage()->Executed_0,
            then,
        ),
    ensures
        r is Ok,
        ({
            let reads = state::reads_of(s, worker.tx@.read_set);
            let result = executor::execute(worker.tx@.op, reads).result;
            if result == TxResult::Success {
                &&& r->Ok_0.1 is Stage
                &&& then is Ok
                &&& then->Ok_0.1 is AwaitCondition
                &&& then->Ok_0.0.stage() == SccStageView::Staged(
                    delta::changes_within(
                        speculation::effect_of(worker.tx@, reads),
                        worker.local_write_keys@,
                    ),
                )
            } else {
                &&& r->Ok_0.1 is End
                &&& worker.is_failure(
                    r->Ok_0.1->End_0,
                    SpeculationFault::OffPath {
                        tx_id: worker.tx@.tx_id,
                        result,
                        predicted: worker.tx_plan.predicted_path,
                    },
                )
            }
        }),
{
    assert(router::shards_of(v.shard_count, v.read_set).remove(worker.shard_id).subset_of(
        v.expected,
    ));
    shards::lemma_gathering_ends(v, s, worker.shard_id);
    let output = executor::execute(worker.tx@.op, v.full_reads);
    if output.result == TxResult::Success {
        planning::lemma_effect_never_refused(worker.tx@, s);
        if then is Err {
            lemma_no_delta_error(worker, v, then->Err_0);
        }
    }
}

/// Each transaction of `way` must see the one before it.
pub open spec fn is_way(txs: Seq<OrderedTxView>, way: Seq<int>) -> bool {
    &&& way.len() >= 2
    &&& forall|n: int| 1 <= n < way.len() ==> plan::depends(txs, way[n - 1], #[trigger] way[n])
}

/// A way leads forward.
proof fn lemma_way_leads_forward(txs: Seq<OrderedTxView>, way: Seq<int>, n: int)
    requires
        is_way(txs, way),
        0 <= n < way.len(),
    ensures
        way[0] <= way[n],
    decreases n,
{
    if n > 0 {
        lemma_way_leads_forward(txs, way, n - 1);
        assert(plan::depends(txs, way[n - 1], way[n]));
    }
}

/// What leads to a transaction is among what it looks at.
proof fn lemma_prefix_holds_what_leads(
    txs: Seq<OrderedTxView>,
    plan: SccBatchPlan,
    way: Seq<int>,
    phase: SccPhase,
)
    requires
        plan::plans(plan, txs),
        is_way(txs, way),
    ensures
        0 <= way.last() < txs.len(),
        0 <= way[0] < read::prefix_len(plan.tx_plans[way.last()], phase),
{
    let j = way.last();
    let k = way[way.len() - 2];
    lemma_way_leads_forward(txs, way, way.len() - 2);
    assert(plan::depends(txs, way[0], way[1]));
    assert(plan::depends(txs, k, j));
    assert(plan::last_before(txs, j, j, plan.tx_plans[j].effect_max_pred_index));
    assert(plan::last_before(txs, j, j, plan.tx_plans[j].condition_max_pred_index));
}

/// A replay that comes to its end met only slots that committed.
proof fn lemma_replayed_slots_committed(
    s: State,
    slots: Seq<SlotView>,
    writes: Seq<Set<Path>>,
    keys: Set<Path>,
    n: int,
    i: int,
)
    requires
        read::replay(s, slots, writes, keys, n) is Reached,
        0 <= i < n,
    ensures
        i < slots.len(),
        slots[i] == SlotView::NoOp || slots[i] is Delta,
    decreases n,
{
    assert(read::replay(s, slots, writes, keys, n - 1) is Reached);
    if i < n - 1 {
        lemma_replayed_slots_committed(s, slots, writes, keys, n - 1, i);
    }
}

/// A transaction that gets so far as to send what it read has seen all that leads to it,
/// by whatever way, commit. So where one that leads to it has failed, it does not commit on that shard.
pub proof fn lemma_failure_blocks(
    txs: Seq<OrderedTxView>,
    plan: SccBatchPlan,
    worker: SccWorker,
    way: Seq<int>,
    phase: SccPhase,
    staged: Seq<DeltaOpView>,
    sight: SccSight,
    r: Result<(SccRun, SccAction)>,
)
    requires
        plan::plans(plan, txs),
        is_way(txs, way),
        worker.tx_plan == plan.tx_plans[way.last()],
        worker.after_due(phase, staged, sight, r),
        r is Ok,
        r->Ok_0.1 is Send,
    ensures
        0 <= way[0] < sight.slots.len(),
        sight.slots[way[0]] == SlotView::NoOp || sight.slots[way[0]] is Delta,
{
    lemma_prefix_holds_what_leads(txs, plan, way, phase);
    lemma_replayed_slots_committed(
        read::state_of(sight.base.restrict(worker.local_read_keys@)),
        sight.slots,
        read::key_sets(sight.writes_by_tx),
        worker.local_read_keys@,
        read::prefix_len(worker.tx_plan, phase),
        way[0],
    );
}

/// Where the effect can be told as changes, telling it is not refused.
proof fn lemma_no_delta_error(worker: SccWorker, v: CollectorView, error: Error)
    requires
        ({
            let output = executor::execute(worker.tx@.op, v.full_reads);
            &&& output.result == TxResult::Success
            &&& delta::all_read(worker.tx@.write_set, v.full_reads)
            &&& delta::within(output.writes, worker.tx@.write_set)
            &&& delta::all_in_range(
                collections::sorted::<Key>(worker.tx@.write_set),
                v.full_reads,
                output.writes,
            )
        }),
    ensures
        !delta::delta_error(
            worker.tx@,
            v.full_reads,
            executor::execute(worker.tx@.op, v.full_reads),
            error,
        ),
{
}

} // verus!
