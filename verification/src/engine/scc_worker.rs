//! One transaction of a speculative batch on this shard: what it reads, what it
//! makes of the reads, and how its slot ends.

use crate::collections;
use crate::collections::{OrdMap, OrdSet};
use crate::engine::batch::execute_checked;
use crate::engine::reads::{CollectorView, LocalReadResult, ReadCollector};
use crate::error::{Error, Result, SpeculationFault};
use crate::executor;
use crate::model::{
    BatchId, Key, LocalReadStatus, OrderedTx, ReadPhase, ReadValue, ShardId, TxExecutionOutput,
    TxResult, TxResultRecord,
};
use crate::router::{Participants, ShardLayout};
use crate::scc::commit::{CommitSequence, CommitSlotState, SlotView};
use crate::scc::condition;
use crate::scc::condition::check_success_path_condition;
use crate::scc::delta;
use crate::scc::delta::{filter_delta_to_keys, output_to_delta, DeltaOpView, TxDelta};
use crate::scc::plan::{SccPhase, SccTxPlan};
use crate::scc::read;
use crate::scc::read::{materialized_local_read, MaterializedRead, Replay};
use crate::scc::tables;
use crate::scc::tables::classify_actual_path;
use crate::state;
use crate::state::Reads;
use std::sync::Arc;
use vstd::prelude::*;

verus! {

/// How a transaction ended on this shard.
#[derive(Debug)]
pub struct SccTerminal {
    pub slot: CommitSlotState,
    /// The result to report, on an active shard.
    pub record: Option<TxResultRecord>,
    /// Whether the client is to be answered right away.
    pub answers_client: bool,
    /// Why the speculation failed.
    pub fault: Option<SpeculationFault>,
}

/// What came of a read in one phase.
pub enum SccRead {
    /// The slot with this index has to become terminal first.
    WaitFor(usize),
    /// The reads of this shard, to be sent to the others, and what gathers theirs.
    Exchange(LocalReadResult, ReadCollector),
    /// The speculation failed; the others are to be told.
    Refuse(LocalReadResult, SccTerminal),
}

/// What came of a message with the reads of another shard.
pub enum SccCollect {
    More(ReadCollector),
    Failed(SccTerminal),
}

/// What the transaction makes of its reads in the effect phase.
pub enum SccEffect {
    /// It took its predicted path, with this outcome.
    OnPath(TxExecutionOutput),
    Failed(SccTerminal),
    /// A count of entries would overflow.
    Overflow,
}

/// One transaction on this shard.
pub struct SccWorker {
    pub batch_id: BatchId,
    pub shard_id: ShardId,
    pub layout: ShardLayout,
    pub tx: OrderedTx,
    pub tx_plan: SccTxPlan,
    pub participants: Participants,
    pub result_shard: ShardId,
    pub local_read_keys: OrdSet<Key>,
    pub local_write_keys: OrdSet<Key>,
}

/// The phase as it is named in messages.
pub open spec fn read_phase(phase: SccPhase) -> ReadPhase {
    match phase {
        SccPhase::Effect => ReadPhase::SccEffect,
        SccPhase::Condition => ReadPhase::SccCondition,
    }
}

fn read_phase_of(phase: SccPhase) -> (r: ReadPhase)
    ensures
        r == read_phase(phase),
{
    match phase {
        SccPhase::Effect => ReadPhase::SccEffect,
        SccPhase::Condition => ReadPhase::SccCondition,
    }
}

impl SccWorker {
    /// There is a shard at all.
    pub open spec fn wf(&self) -> bool {
        self.layout.wf()
    }

    /// The end of a transaction whose speculation failed.
    pub open spec fn is_failure(&self, end: SccTerminal, fault: SpeculationFault) -> bool {
        &&& end.slot@ == SlotView::Failed
        &&& end.record is None
        &&& !end.answers_client
        &&& end.fault == Some(fault)
    }

    /// The end of a transaction that succeeded with the local effect `ops`.
    pub open spec fn is_success(&self, end: SccTerminal, ops: Seq<DeltaOpView>) -> bool {
        &&& end.slot@ == (if ops.len() == 0 {
            SlotView::NoOp
        } else {
            SlotView::Delta(ops)
        })
        &&& end.record == (if self.participants@.active.contains(self.shard_id) {
            Some(
                TxResultRecord {
                    tx_id: self.tx@.tx_id,
                    shard_id: self.shard_id,
                    result: TxResult::Success,
                },
            )
        } else {
            None
        })
        &&& end.answers_client == (self.result_shard == self.shard_id)
        &&& end.fault is None
    }

    fn fail(&self, fault: SpeculationFault) -> (r: SccTerminal)
        ensures
            self.is_failure(r, fault),
    {
        SccTerminal {
            slot: CommitSlotState::Failed,
            record: None,
            answers_client: false,
            fault: Some(fault),
        }
    }

    fn commit_success(&self, local_delta: TxDelta) -> (r: SccTerminal)
        ensures
            self.is_success(r, local_delta@),
    {
        let slot = if local_delta.ops.len() == 0 {
            CommitSlotState::NoOp
        } else {
            CommitSlotState::Delta(Arc::new(local_delta))
        };
        let record = if self.participants.active.contains(&self.shard_id) {
            Some(
                TxResultRecord {
                    tx_id: self.tx.tx_id,
                    shard_id: self.shard_id,
                    result: TxResult::Success,
                },
            )
        } else {
            None
        };
        SccTerminal { slot, record, answers_client: self.result_shard == self.shard_id, fault: None }
    }

    /// `msg` tells the other shards of the reads of this one.
    pub open spec fn is_message(
        &self,
        msg: LocalReadResult,
        phase: ReadPhase,
        status: LocalReadStatus,
        reads: Reads,
    ) -> bool {
        &&& msg.batch_id == self.batch_id
        &&& msg.tx_id == self.tx@.tx_id
        &&& msg.phase == phase
        &&& msg.from_shard == self.shard_id
        &&& msg.status == status
        &&& msg.reads@ == reads
    }

    fn message(
        &self,
        phase: ReadPhase,
        status: LocalReadStatus,
        reads: OrdMap<Key, ReadValue>,
    ) -> (r: LocalReadResult)
        ensures
            self.is_message(r, phase, status, reads@),
    {
        LocalReadResult {
            batch_id: self.batch_id,
            tx_id: self.tx.tx_id,
            phase,
            from_shard: self.shard_id,
            status,
            reads,
        }
    }

    /// The shards to which reads are sent: all participants but this one, in order.
    pub fn targets(&self) -> (r: Vec<ShardId>)
        ensures
            r@ == collections::sorted::<ShardId>(self.participants@.all.remove(self.shard_id)),
    {
        let mut others = self.participants.all.clone();
        let _ = others.remove(&self.shard_id);
        shard_list(&others)
    }

    /// What the slots hold for a read of this transaction in `phase`.
    pub open spec fn replayed(
        &self,
        phase: SccPhase,
        writes_by_tx: Seq<OrdSet<Key>>,
        base: Reads,
        slots: Seq<SlotView>,
    ) -> Replay {
        read::replay(
            read::state_of(base.restrict(self.local_read_keys@)),
            slots,
            read::key_sets(writes_by_tx),
            self.local_read_keys@,
            read::prefix_len(self.tx_plan, phase),
        )
    }

    /// Reads the local keys as they are to be seen in `phase`.
    pub fn read(
        &self,
        phase: SccPhase,
        writes_by_tx: &Vec<OrdSet<Key>>,
        base: &OrdMap<Key, ReadValue>,
        commit_seq: &CommitSequence,
    ) -> (r: Result<SccRead>)
        requires
            self.wf(),
        ensures
            ({
                let known = delta::all_read(self.local_read_keys@, base@);
                let replayed = self.replayed(phase, writes_by_tx@, base@, commit_seq@);
                match r {
                    Ok(SccRead::WaitFor(index)) => known && replayed == Replay::Pending(
                        index as int,
                    ),
                    Ok(SccRead::Exchange(msg, collector)) => {
                        &&& known && replayed is Reached
                        &&& self.is_message(
                            msg,
                            read_phase(phase),
                            LocalReadStatus::Success,
                            state::reads_of(replayed->Reached_0, self.local_read_keys@),
                        )
                        &&& collector@ == (CollectorView {
                            phase: read_phase(phase),
                            batch_id: self.batch_id,
                            tx_id: self.tx@.tx_id,
                            shard_count: self.layout.shard_count,
                            read_set: self.tx@.read_set,
                            expected: self.participants@.all.remove(self.shard_id),
                            received: Set::empty(),
                            full_reads: msg.reads@,
                        })
                    },
                    Ok(SccRead::Refuse(msg, end)) => {
                        &&& known && replayed is Failed
                        &&& self.is_message(
                            msg,
                            read_phase(phase),
                            LocalReadStatus::SpeculationFailed,
                            Map::empty(),
                        )
                        &&& self.is_failure(
                            end,
                            SpeculationFault::FailedSlot { index: replayed->Failed_0 as usize },
                        )
                    },
                    Err(error) => {
                        &&& !(error is SpeculationFailed)
                        &&& read::read_error(
                            self.local_read_keys@,
                            base@,
                            commit_seq@,
                            read::key_sets(writes_by_tx@),
                            read::prefix_len(self.tx_plan, phase),
                            error,
                        )
                    },
                }
            }),
    {
        let outcome = materialized_local_read(
            &self.tx_plan,
            phase,
            &self.local_read_keys,
            writes_by_tx,
            base,
            commit_seq,
        );
        match outcome {
            Ok(MaterializedRead::WaitFor(index)) => Ok(SccRead::WaitFor(index)),
            Ok(MaterializedRead::Ready(reads)) => {
                let collector = ReadCollector::new(
                    read_phase_of(phase),
                    self.batch_id,
                    &self.tx,
                    self.layout,
                    self.shard_id,
                    &self.participants.all,
                    reads.clone(),
                );
                let msg = self.message(read_phase_of(phase), LocalReadStatus::Success, reads);
                Ok(SccRead::Exchange(msg, collector))
            },
            Err(Error::SpeculationFailed(SpeculationFault::FailedSlot { index })) => {
                let msg = self.message(
                    read_phase_of(phase),
                    LocalReadStatus::SpeculationFailed,
                    OrdMap::new(),
                );
                let end = self.fail(SpeculationFault::FailedSlot { index });
                Ok(SccRead::Refuse(msg, end))
            },
            Err(error) => Err(error),
        }
    }

    /// Takes the reads of another shard. A failure there is one here.
    pub fn collect(&self, collector: ReadCollector, msg: LocalReadResult) -> (r: Result<SccCollect>)
        requires
            collector@.speculates(),
        ensures
            match r {
                Ok(SccCollect::More(next)) => collector@.accepts(msg) && next@ == collector@.with(
                    msg,
                ),
                Ok(SccCollect::Failed(end)) => {
                    &&& collector@.reaches_status(msg)
                    &&& msg.status == LocalReadStatus::SpeculationFailed
                    &&& self.is_failure(
                        end,
                        SpeculationFault::RemoteFailure {
                            tx_id: collector@.tx_id,
                            phase: collector@.phase,
                            from_shard: msg.from_shard,
                        },
                    )
                },
                Err(error) => {
                    &&& !collector@.accepts(msg)
                    &&& !(error is SpeculationFailed)
                    &&& collector@.refusal(msg, error)
                },
            },
    {
        let mut collector = collector;
        match collector.offer(msg) {
            Ok(_) => Ok(SccCollect::More(collector)),
            Err(Error::SpeculationFailed(fault)) => Ok(SccCollect::Failed(self.fail(fault))),
            Err(error) => Err(error),
        }
    }

    /// The transaction leaves its predicted path on `reads`.
    pub open spec fn off_path(&self, reads: Reads) -> bool {
        executor::execute(self.tx@.op, reads).result != TxResult::Success
            || self.tx_plan.predicted_path != tables::success_path(self.tx@.op)
    }

    /// The effect of the transaction on all keys.
    pub open spec fn full_effect(&self, reads: Reads) -> Seq<DeltaOpView> {
        delta::changes(
            collections::sorted::<Key>(self.tx@.write_set),
            reads,
            executor::execute(self.tx@.op, reads).writes,
        )
    }

    /// The transaction takes its predicted path on `reads`, and no count overflows.
    pub open spec fn on_path(&self, reads: Reads) -> bool {
        !executor::overflows(self.tx@.op, reads) && !self.off_path(reads)
    }

    /// Runs the transaction on all its reads.
    pub fn effect(&self, full_reads: &OrdMap<Key, ReadValue>) -> (r: SccEffect)
        ensures
            ({
                let output = executor::execute(self.tx@.op, full_reads@);
                let overflows = executor::overflows(self.tx@.op, full_reads@);
                match r {
                    SccEffect::Overflow => overflows,
                    SccEffect::Failed(end) => {
                        &&& !overflows && self.off_path(full_reads@)
                        &&& self.is_failure(
                            end,
                            SpeculationFault::OffPath {
                                tx_id: self.tx@.tx_id,
                                result: output.result,
                                predicted: self.tx_plan.predicted_path,
                            },
                        )
                    },
                    SccEffect::OnPath(executed) => {
                        self.on_path(full_reads@) && executed@ == output
                    },
                }
            }),
    {
        let output = match execute_checked(&self.tx, full_reads) {
            Some(output) => output,
            None => return SccEffect::Overflow,
        };
        let result = output.result;
        let on_path = match classify_actual_path(&self.tx, &output) {
            Some(actual) => actual == self.tx_plan.predicted_path,
            None => false,
        };
        if !on_path {
            return SccEffect::Failed(
                self.fail(
                    SpeculationFault::OffPath {
                        tx_id: self.tx.tx_id,
                        result,
                        predicted: self.tx_plan.predicted_path,
                    },
                ),
            );
        }
        SccEffect::OnPath(output)
    }

    /// The effect on this shard of a transaction that ran on all its reads, to be
    /// confirmed.
    pub fn local_effect(
        &self,
        full_reads: &OrdMap<Key, ReadValue>,
        output: TxExecutionOutput,
    ) -> (r: Result<TxDelta>)
        requires
            output@ == executor::execute(self.tx@.op, full_reads@),
        ensures
            match r {
                Ok(local_delta) => {
                    &&& output@.result == TxResult::Success
                    &&& delta::all_read(self.tx@.write_set, full_reads@)
                    &&& delta::within(output@.writes, self.tx@.write_set)
                    &&& delta::all_in_range(
                        collections::sorted::<Key>(self.tx@.write_set),
                        full_reads@,
                        output@.writes,
                    )
                    &&& local_delta@ == delta::changes_within(
                        self.full_effect(full_reads@),
                        self.local_write_keys@,
                    )
                },
                Err(error) => delta::delta_error(self.tx@, full_reads@, output@, error),
            },
    {
        match output_to_delta(&self.tx, full_reads, output) {
            Ok(full_delta) => Ok(filter_delta_to_keys(&full_delta, &self.local_write_keys)),
            Err(error) => Err(error),
        }
    }

    /// What was read in the effect phase is all that the condition phase would read.
    pub open spec fn condition_covered(&self) -> bool {
        match self.tx_plan.condition_max_pred_index {
            None => true,
            Some(last) => match self.tx_plan.effect_max_pred_index {
                None => false,
                Some(effect) => effect >= last,
            },
        }
    }

    /// Once the condition phase is due: the end, where everything it must see was seen
    /// already; nothing where the condition has to be checked.
    pub fn condition_due(&self, local_delta: &TxDelta) -> (r: Option<SccTerminal>)
        ensures
            match r {
                Some(end) => self.condition_covered() && self.is_success(end, local_delta@),
                None => !self.condition_covered(),
            },
    {
        if self.tx_plan.effect_prefix_covers_condition() {
            Some(self.commit_success(local_delta.clone()))
        } else {
            None
        }
    }

    /// Confirms the staged effect on the reads of the condition phase.
    pub fn condition(&self, local_delta: TxDelta, full_reads: &OrdMap<Key, ReadValue>) -> (r: Result<
        SccTerminal,
    >)
        ensures
            ({
                let holds = self.tx_plan.predicted_path == tables::success_path(self.tx@.op)
                    && condition::success_condition(self.tx@.op, full_reads@);
                match r {
                    Ok(end) => if holds {
                        self.is_success(end, local_delta@)
                    } else {
                        self.is_failure(
                            end,
                            SpeculationFault::ConditionFailed { tx_id: self.tx@.tx_id },
                        )
                    },
                    Err(_) => false,
                }
            }),
    {
        let holds = check_success_path_condition(
            &self.tx,
            self.tx_plan.predicted_path,
            full_reads,
        )?;
        if holds {
            Ok(self.commit_success(local_delta))
        } else {
            Ok(self.fail(SpeculationFault::ConditionFailed { tx_id: self.tx.tx_id }))
        }
    }
}

/// The shards of `set` in order.
pub fn shard_list(set: &OrdSet<ShardId>) -> (r: Vec<ShardId>)
    ensures
        r@ == collections::sorted::<ShardId>(set@),
{
    let n = set.len();
    let mut r: Vec<ShardId> = Vec::new();
    let mut i: usize = 0;
    while i < n
        invariant
            i <= n,
            n == set.ordered().len(),
            r@ == set.ordered().take(i as int),
        decreases n - i,
    {
        r.push(*set.at(i));
        i += 1;
        assert(set.ordered().take(i as int) =~= set.ordered().take(i - 1).push(
            set.ordered()[i - 1],
        ));
    }
    assert(r@ =~= set.ordered());
    r
}

} // verus!
