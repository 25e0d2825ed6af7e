//! One transaction of a speculative batch on this shard, step by step: it reads what it
//! must see, tells the other shards, gathers their reads, runs, stages its effect, and
//! confirms it before it ends.

use crate::collections;
use crate::collections::{OrdMap, OrdSet};
use crate::engine::reads::{CollectorView, LocalReadResult, ReadCollector};
use crate::engine::scc_worker;
use crate::engine::scc_worker::{SccCollect, SccEffect, SccRead, SccTerminal, SccWorker};
use crate::error::{BatchFault, Error, Result, SpeculationFault};
use crate::executor;
use crate::model::{Key, LocalReadStatus, ReadValue, ShardId, TxExecutionOutput};
use crate::scc::commit::{CommitSequence, SlotView};
use crate::scc::condition;
use crate::scc::delta;
use crate::scc::delta::{DeltaOpView, TxDelta};
use crate::scc::plan::SccPhase;
use crate::scc::read;
use crate::scc::read::Replay;
use crate::scc::tables;
use crate::state;
use crate::state::Reads;
use vstd::pervasive::unreached;
use vstd::prelude::*;

verus! {

/// What is to be done next.
#[derive(Debug)]
pub enum SccAction {
    /// Wait until the slot with this index is terminal.
    AwaitSlot(usize),
    /// Send the reads of this shard to these shards.
    Send(LocalReadResult, Vec<ShardId>),
    /// Wait for the reads of another shard in this phase.
    AwaitMessage(SccPhase),
    /// Go on: the transaction took its predicted path, and its effect is next.
    Stage,
    /// Wait until the condition phase is due; this many changes are staged.
    AwaitCondition(usize),
    /// Tell these shards that there is nothing to wait for, and end.
    Refuse(LocalReadResult, Vec<ShardId>, SccTerminal),
    End(SccTerminal),
    /// Nothing: a count of entries would overflow.
    Overflow,
}

enum SccStage {
    Effect,
    EffectReads(ReadCollector),
    Executed(OrdMap<Key, ReadValue>, TxExecutionOutput),
    Staged(TxDelta),
    Condition(TxDelta),
    ConditionReads(TxDelta, ReadCollector),
    Over,
}

/// Where the transaction stands.
pub enum SccStageView {
    /// Its reads in the effect phase are next.
    Effect,
    /// It gathers the reads of the effect phase.
    EffectReads(CollectorView),
    /// It ran on these reads, and its effect is next.
    Executed(Reads),
    /// This effect waits for the condition phase.
    Staged(Seq<DeltaOpView>),
    /// Its reads in the condition phase are next.
    Condition(Seq<DeltaOpView>),
    /// It gathers the reads of the condition phase.
    ConditionReads(Seq<DeltaOpView>, CollectorView),
    Over,
}

impl SccStage {
    spec fn view(&self) -> SccStageView {
        match self {
            SccStage::Effect => SccStageView::Effect,
            SccStage::EffectReads(collector) => SccStageView::EffectReads(collector@),
            SccStage::Executed(reads, _) => SccStageView::Executed(reads@),
            SccStage::Staged(staged) => SccStageView::Staged(staged@),
            SccStage::Condition(staged) => SccStageView::Condition(staged@),
            SccStage::ConditionReads(staged, collector) => SccStageView::ConditionReads(
                staged@,
                collector@,
            ),
            SccStage::Over => SccStageView::Over,
        }
    }
}

/// A transaction while it runs on this shard.
pub struct SccRun {
    worker: SccWorker,
    stage: SccStage,
}

/// What a read looks at: the keys that each transaction writes on this shard, what was
/// stored when the batch began, and the slots.
pub ghost struct SccSight {
    pub writes_by_tx: Seq<OrdSet<Key>>,
    pub base: Reads,
    pub slots: Seq<SlotView>,
}

impl SccWorker {
    /// The shards to which this one sends.
    pub open spec fn other_shards(&self) -> Seq<ShardId> {
        collections::sorted::<ShardId>(self.participants@.all.remove(self.shard_id))
    }

    /// What the reads of this shard begin to gather.
    pub open spec fn gathering(&self, phase: SccPhase, reads: Reads) -> CollectorView {
        CollectorView {
            phase: scc_worker::read_phase(phase),
            batch_id: self.batch_id,
            tx_id: self.tx@.tx_id,
            shard_count: self.layout.shard_count,
            read_set: self.tx@.read_set,
            expected: self.participants@.all.remove(self.shard_id),
            received: Set::empty(),
            full_reads: reads,
        }
    }

    /// What follows once the reads of `phase` are due, with the effect `staged` in the
    /// condition phase.
    pub open spec fn after_due(
        &self,
        phase: SccPhase,
        staged: Seq<DeltaOpView>,
        sight: SccSight,
        r: Result<(SccRun, SccAction)>,
    ) -> bool {
        let known = delta::all_read(self.local_read_keys@, sight.base);
        let replayed = self.replayed(phase, sight.writes_by_tx, sight.base, sight.slots);
        let seen = state::reads_of(replayed->Reached_0, self.local_read_keys@);
        match r {
            Ok((run, SccAction::AwaitSlot(index))) => {
                &&& known && replayed == Replay::Pending(index as int)
                &&& run.stage() == (match phase {
                    SccPhase::Effect => SccStageView::Effect,
                    SccPhase::Condition => SccStageView::Condition(staged),
                })
            },
            Ok((run, SccAction::Send(msg, targets))) => {
                &&& known && replayed is Reached
                &&& self.is_message(
                    msg,
                    scc_worker::read_phase(phase),
                    LocalReadStatus::Success,
                    seen,
                )
                &&& targets@ == self.other_shards()
                &&& run.stage() == (match phase {
                    SccPhase::Effect => SccStageView::EffectReads(self.gathering(phase, seen)),
                    SccPhase::Condition => SccStageView::ConditionReads(
                        staged,
                        self.gathering(phase, seen),
                    ),
                })
            },
            Ok((run, SccAction::Refuse(msg, targets, end))) => {
                &&& known && replayed is Failed
                &&& self.is_message(
                    msg,
                    scc_worker::read_phase(phase),
                    LocalReadStatus::SpeculationFailed,
                    Map::empty(),
                )
                &&& targets@ == self.other_shards()
                &&& self.is_failure(
                    end,
                    SpeculationFault::FailedSlot { index: replayed->Failed_0 as usize },
                )
                &&& run.stage() == SccStageView::Over
            },
            Ok(_) => false,
            Err(error) => {
                &&& !(error is SpeculationFailed)
                &&& read::read_error(
                    self.local_read_keys@,
                    sight.base,
                    sight.slots,
                    read::key_sets(sight.writes_by_tx),
                    read::prefix_len(self.tx_plan, phase),
                    error,
                )
            },
        }
    }

    /// `error` says that the gathered reads are not those of all keys.
    pub open spec fn incomplete(&self, v: CollectorView, error: Error) -> bool {
        match error {
            Error::InvalidBatch(
                BatchFault::FullReadsMismatch { tx_id, phase, expected, found },
            ) => {
                &&& v.full_reads.dom() != v.read_set
                &&& tx_id == v.tx_id && phase == v.phase
                &&& expected@ == v.read_set
                &&& found@ == v.full_reads.dom()
            },
            _ => false,
        }
    }

    /// What follows where the reads that `v` holds have come in, in the effect phase: the
    /// transaction runs, once these are all.
    pub open spec fn after_effect_reads(
        &self,
        v: CollectorView,
        r: Result<(SccRun, SccAction)>,
    ) -> bool {
        let output = executor::execute(self.tx@.op, v.full_reads);
        let overflows = executor::overflows(self.tx@.op, v.full_reads);
        let all_in = v.expected.subset_of(v.received);
        let complete = v.full_reads.dom() == v.read_set;
        match r {
            Ok((run, SccAction::AwaitMessage(phase))) => {
                &&& !all_in && phase == SccPhase::Effect
                &&& run.stage() == SccStageView::EffectReads(v)
            },
            Ok((run, SccAction::Overflow)) => {
                all_in && complete && overflows && run.stage() == SccStageView::Over
            },
            Ok((run, SccAction::End(end))) => {
                &&& all_in && complete && !overflows && self.off_path(v.full_reads)
                &&& self.is_failure(
                    end,
                    SpeculationFault::OffPath {
                        tx_id: self.tx@.tx_id,
                        result: output.result,
                        predicted: self.tx_plan.predicted_path,
                    },
                )
                &&& run.stage() == SccStageView::Over
            },
            Ok((run, SccAction::Stage)) => {
                &&& all_in && complete && self.on_path(v.full_reads)
                &&& run.stage() == SccStageView::Executed(v.full_reads)
            },
            Ok(_) => false,
            Err(error) => all_in && self.incomplete(v, error),
        }
    }

    /// What follows where the transaction ran on `reads`: its effect on this shard is
    /// staged.
    pub open spec fn after_execution(&self, reads: Reads, r: Result<(SccRun, SccAction)>) -> bool {
        let output = executor::execute(self.tx@.op, reads);
        match r {
            Ok((run, SccAction::AwaitCondition(count))) => {
                &&& delta::all_read(self.tx@.write_set, reads)
                &&& delta::within(output.writes, self.tx@.write_set)
                &&& delta::all_in_range(
                    collections::sorted::<Key>(self.tx@.write_set),
                    reads,
                    output.writes,
                )
                &&& run.stage() is Staged
                &&& run.stage()->Staged_0 == delta::changes_within(
                    self.full_effect(reads),
                    self.local_write_keys@,
                )
                &&& count == run.stage()->Staged_0.len()
            },
            Ok(_) => false,
            Err(error) => delta::delta_error(self.tx@, reads, output, error),
        }
    }

    /// What follows where the reads that `v` holds have come in, in the condition phase:
    /// the end, once these are all.
    pub open spec fn after_condition_reads(
        &self,
        staged: Seq<DeltaOpView>,
        v: CollectorView,
        r: Result<(SccRun, SccAction)>,
    ) -> bool {
        let all_in = v.expected.subset_of(v.received);
        let complete = v.full_reads.dom() == v.read_set;
        let holds = self.tx_plan.predicted_path == tables::success_path(self.tx@.op)
            && condition::success_condition(self.tx@.op, v.full_reads);
        match r {
            Ok((run, SccAction::AwaitMessage(phase))) => {
                &&& !all_in && phase == SccPhase::Condition
                &&& run.stage() == SccStageView::ConditionReads(staged, v)
            },
            Ok((run, SccAction::End(end))) => {
                &&& all_in && complete
                &&& if holds {
                    self.is_success(end, staged)
                } else {
                    self.is_failure(
                        end,
                        SpeculationFault::ConditionFailed { tx_id: self.tx@.tx_id },
                    )
                }
                &&& run.stage() == SccStageView::Over
            },
            Ok(_) => false,
            Err(error) => all_in && self.incomplete(v, error),
        }
    }

    fn due(
        self,
        phase: SccPhase,
        staged: Option<TxDelta>,
        writes_by_tx: &Vec<OrdSet<Key>>,
        base: &OrdMap<Key, ReadValue>,
        commit_seq: &CommitSequence,
    ) -> (r: Result<(SccRun, SccAction)>)
        requires
            self.wf(),
            staged is Some <==> phase == SccPhase::Condition,
        ensures
            r matches Ok((run, _)) ==> run.wf() && run.worker() == self,
            self.after_due(
                phase,
                staged->Some_0@,
                SccSight { writes_by_tx: writes_by_tx@, base: base@, slots: commit_seq@ },
                r,
            ),
    {
        let outcome = match self.read(phase, writes_by_tx, base, commit_seq) {
            Ok(outcome) => outcome,
            Err(error) => return Err(error),
        };
        let targets = self.targets();
        match outcome {
            SccRead::WaitFor(index) => {
                let stage = match staged {
                    None => SccStage::Effect,
                    Some(staged) => SccStage::Condition(staged),
                };
                Ok((SccRun { worker: self, stage }, SccAction::AwaitSlot(index)))
            },
            SccRead::Exchange(msg, collector) => {
                let stage = match staged {
                    None => SccStage::EffectReads(collector),
                    Some(staged) => SccStage::ConditionReads(staged, collector),
                };
                Ok((SccRun { worker: self, stage }, SccAction::Send(msg, targets)))
            },
            SccRead::Refuse(msg, end) => Ok(
                (
                    SccRun { worker: self, stage: SccStage::Over },
                    SccAction::Refuse(msg, targets, end),
                ),
            ),
        }
    }

    fn effect_reads(self, collector: ReadCollector) -> (r: Result<(SccRun, SccAction)>)
        requires
            self.wf(),
            collector@.phase == scc_worker::read_phase(SccPhase::Effect),
        ensures
            r matches Ok((run, _)) ==> run.wf() && run.worker() == self,
            self.after_effect_reads(collector@, r),
    {
        if !collector.is_done() {
            return Ok(
                (
                    SccRun { worker: self, stage: SccStage::EffectReads(collector) },
                    SccAction::AwaitMessage(SccPhase::Effect),
                ),
            );
        }
        let full_reads = match collector.finish() {
            Ok((full_reads, _)) => full_reads,
            Err(error) => return Err(error),
        };
        match self.effect(&full_reads) {
            SccEffect::OnPath(output) => Ok(
                (
                    SccRun { worker: self, stage: SccStage::Executed(full_reads, output) },
                    SccAction::Stage,
                ),
            ),
            SccEffect::Failed(end) => Ok(
                (SccRun { worker: self, stage: SccStage::Over }, SccAction::End(end)),
            ),
            SccEffect::Overflow => Ok(
                (SccRun { worker: self, stage: SccStage::Over }, SccAction::Overflow),
            ),
        }
    }

    fn condition_reads(self, staged: TxDelta, collector: ReadCollector) -> (r: Result<
        (SccRun, SccAction),
    >)
        requires
            self.wf(),
            collector@.phase == scc_worker::read_phase(SccPhase::Condition),
        ensures
            r matches Ok((run, _)) ==> run.wf() && run.worker() == self,
            self.after_condition_reads(staged@, collector@, r),
    {
        if !collector.is_done() {
            return Ok(
                (
                    SccRun { worker: self, stage: SccStage::ConditionReads(staged, collector) },
                    SccAction::AwaitMessage(SccPhase::Condition),
                ),
            );
        }
        let full_reads = match collector.finish() {
            Ok((full_reads, _)) => full_reads,
            Err(error) => return Err(error),
        };
        match self.condition(staged, &full_reads) {
            Ok(end) => Ok((SccRun { worker: self, stage: SccStage::Over }, SccAction::End(end))),
            Err(error) => Err(error),
        }
    }
}

impl SccRun {
    /// There is a shard at all, reads are gathered for the phase that they are for, and
    /// what was executed was executed on the reads that are kept.
    pub closed spec fn wf(&self) -> bool {
        &&& self.worker.wf()
        &&& match self.stage {
            SccStage::Executed(reads, output) => self.worker.on_path(reads@) && output@
                == executor::execute(self.worker.tx@.op, reads@),
            SccStage::EffectReads(collector) => collector@.phase == scc_worker::read_phase(
                SccPhase::Effect,
            ),
            SccStage::ConditionReads(_, collector) => collector@.phase == scc_worker::read_phase(
                SccPhase::Condition,
            ),
            _ => true,
        }
    }

    /// Who runs what.
    pub closed spec fn worker(&self) -> SccWorker {
        self.worker
    }

    /// Where the transaction stands.
    pub closed spec fn stage(&self) -> SccStageView {
        self.stage.view()
    }

    /// Begins: the reads of the effect phase are next, once they are due.
    pub fn begin(worker: SccWorker) -> (r: Self)
        requires
            worker.wf(),
        ensures
            r.wf(),
            r.worker() == worker,
            r.stage() == SccStageView::Effect,
    {
        SccRun { worker, stage: SccStage::Effect }
    }

    /// Reads what is due: the phase has come, or the slot that was waited for is terminal.
    pub fn on_due(
        self,
        writes_by_tx: &Vec<OrdSet<Key>>,
        base: &OrdMap<Key, ReadValue>,
        commit_seq: &CommitSequence,
    ) -> (r: Result<(Self, SccAction)>)
        requires
            self.wf(),
            self.stage() is Effect || self.stage() is Staged || self.stage() is Condition,
        ensures
            r matches Ok((run, _)) ==> run.wf() && run.worker() == self.worker(),
            ({
                let sight = SccSight {
                    writes_by_tx: writes_by_tx@,
                    base: base@,
                    slots: commit_seq@,
                };
                match self.stage() {
                    SccStageView::Staged(staged) => if self.worker().condition_covered() {
                        &&& r matches Ok((run, SccAction::End(end)))
                        &&& self.worker().is_success(end, staged)
                        &&& run.stage() == SccStageView::Over
                    } else {
                        self.worker().after_due(SccPhase::Condition, staged, sight, r)
                    },
                    SccStageView::Condition(staged) => self.worker().after_due(
                        SccPhase::Condition,
                        staged,
                        sight,
                        r,
                    ),
                    _ => self.worker().after_due(SccPhase::Effect, Seq::empty(), sight, r),
                }
            }),
    {
        match self.stage {
            SccStage::Effect => {
                self.worker.due(SccPhase::Effect, None, writes_by_tx, base, commit_seq)
            },
            SccStage::Staged(staged) => {
                match self.worker.condition_due(&staged) {
                    Some(end) => Ok(
                        (SccRun { worker: self.worker, stage: SccStage::Over }, SccAction::End(end)),
                    ),
                    None => self.worker.due(
                        SccPhase::Condition,
                        Some(staged),
                        writes_by_tx,
                        base,
                        commit_seq,
                    ),
                }
            },
            SccStage::Condition(staged) => {
                self.worker.due(SccPhase::Condition, Some(staged), writes_by_tx, base, commit_seq)
            },
            _ => unreached(),
        }
    }

    /// The reads of this shard have been sent.
    pub fn on_sent(self) -> (r: Result<(Self, SccAction)>)
        requires
            self.wf(),
            self.stage() is EffectReads || self.stage() is ConditionReads,
        ensures
            r matches Ok((run, _)) ==> run.wf() && run.worker() == self.worker(),
            match self.stage() {
                SccStageView::EffectReads(v) => self.worker().after_effect_reads(v, r),
                SccStageView::ConditionReads(staged, v) => self.worker().after_condition_reads(
                    staged,
                    v,
                    r,
                ),
                _ => false,
            },
    {
        match self.stage {
            SccStage::EffectReads(collector) => self.worker.effect_reads(collector),
            SccStage::ConditionReads(staged, collector) => {
                self.worker.condition_reads(staged, collector)
            },
            _ => unreached(),
        }
    }

    /// Stages the effect of the transaction, which has run.
    pub fn on_executed(self) -> (r: Result<(Self, SccAction)>)
        requires
            self.wf(),
            self.stage() is Executed,
        ensures
            r matches Ok((run, _)) ==> run.wf() && run.worker() == self.worker(),
            self.worker().on_path(self.stage()->Executed_0),
            self.worker().after_execution(self.stage()->Executed_0, r),
    {
        match self.stage {
            SccStage::Executed(full_reads, output) => {
                match self.worker.local_effect(&full_reads, output) {
                    Ok(staged) => {
                        let count = staged.ops.len();
                        Ok(
                            (
                                SccRun { worker: self.worker, stage: SccStage::Staged(staged) },
                                SccAction::AwaitCondition(count),
                            ),
                        )
                    },
                    Err(error) => Err(error),
                }
            },
            _ => unreached(),
        }
    }

    /// What a message with the reads of another shard leads to where it is not taken in.
    pub open spec fn not_taken(
        &self,
        v: CollectorView,
        msg: LocalReadResult,
        r: Result<(SccRun, SccAction)>,
    ) -> bool {
        match r {
            Ok((run, SccAction::End(end))) => {
                &&& v.reaches_status(msg)
                &&& msg.status == LocalReadStatus::SpeculationFailed
                &&& self.worker().is_failure(
                    end,
                    SpeculationFault::RemoteFailure {
                        tx_id: v.tx_id,
                        phase: v.phase,
                        from_shard: msg.from_shard,
                    },
                )
                &&& run.stage() == SccStageView::Over
            },
            Ok(_) => false,
            Err(error) => !(error is SpeculationFailed) && v.refusal(msg, error),
        }
    }

    /// Takes the reads of another shard. A failure there is one here.
    pub fn on_message(self, msg: LocalReadResult) -> (r: Result<(Self, SccAction)>)
        requires
            self.wf(),
            self.stage() is EffectReads || self.stage() is ConditionReads,
        ensures
            r matches Ok((run, _)) ==> run.wf() && run.worker() == self.worker(),
            match self.stage() {
                SccStageView::EffectReads(v) => if v.accepts(msg) {
                    self.worker().after_effect_reads(v.with(msg), r)
                } else {
                    self.not_taken(v, msg, r)
                },
                SccStageView::ConditionReads(staged, v) => if v.accepts(msg) {
                    self.worker().after_condition_reads(staged, v.with(msg), r)
                } else {
                    self.not_taken(v, msg, r)
                },
                _ => false,
            },
    {
        match self.stage {
            SccStage::EffectReads(collector) => {
                match self.worker.collect(collector, msg) {
                    Ok(SccCollect::More(collector)) => self.worker.effect_reads(collector),
                    Ok(SccCollect::Failed(end)) => Ok(
                        (SccRun { worker: self.worker, stage: SccStage::Over }, SccAction::End(end)),
                    ),
                    Err(error) => Err(error),
                }
            },
            SccStage::ConditionReads(staged, collector) => {
                match self.worker.collect(collector, msg) {
                    Ok(SccCollect::More(collector)) => {
                        self.worker.condition_reads(staged, collector)
                    },
                    Ok(SccCollect::Failed(end)) => Ok(
                        (SccRun { worker: self.worker, stage: SccStage::Over }, SccAction::End(end)),
                    ),
                    Err(error) => Err(error),
                }
            },
            _ => unreached(),
        }
    }
}

} // verus!
