//! One transaction under locks on this shard, step by step: it waits for its locks,
//! reads, tells the other shards, gathers their reads, runs and writes.

use crate::collections;
use crate::collections::{OrdMap, OrdSet};
use crate::engine::batch;
use crate::engine::batch::run_on_shard;
use crate::engine::reads::{
    CollectorView, LocalReadResult, LockWait, LockWaitView, ReadCollector,
};
use crate::engine::scc_worker::shard_list;
use crate::error::{BatchFault, Error, LockFault, Result};
use crate::executor;
use crate::lock::LockGrant;
use crate::model;
use crate::model::{
    BatchId, Key, LocalReadStatus, OrderedTx, ReadPhase, ReadValue, ShardId, TxResult,
    TxResultRecord, WriteOp,
};
use crate::router;
use crate::router::ShardLayout;
use crate::state::Reads;
use vstd::pervasive::unreached;
use vstd::prelude::*;

verus! {

/// One transaction on this shard.
#[derive(Debug)]
pub struct LockedWorker {
    pub phase: ReadPhase,
    pub batch_id: BatchId,
    pub shard_id: ShardId,
    pub layout: ShardLayout,
    pub tx: OrderedTx,
    /// The shards that run the transaction.
    pub active: OrdSet<ShardId>,
    /// The shards whose reads it needs.
    pub sources: OrdSet<ShardId>,
}

/// What is to be done next.
#[derive(Debug)]
pub enum LockedAction {
    /// Wait for a lock.
    AwaitGrant,
    /// Read these keys.
    Read(OrdSet<Key>),
    /// Send the reads of this shard to these shards.
    Send(LocalReadResult, Vec<ShardId>),
    /// Wait for the reads of another shard.
    AwaitMessage,
    /// Apply these writes.
    Write(Vec<WriteOp>),
    /// Nothing: this shard only served its reads.
    Passive,
    /// Nothing: a count of entries would overflow.
    Overflow,
}

enum LockedStage {
    Locking(LockWait),
    Reading,
    Sending(OrdMap<Key, ReadValue>),
    Gathering(ReadCollector),
    Writing(TxResult),
    Over,
}

/// Where the transaction stands.
pub enum LockedStageView {
    /// It waits for locks.
    Locking(LockWaitView),
    /// It holds its locks and reads.
    Reading,
    /// It sends what it read.
    Sending(Reads),
    /// It gathers the reads of the other shards.
    Gathering(CollectorView),
    /// It writes, to end with this result.
    Writing(TxResult),
    Over,
}

impl LockedStage {
    spec fn view(&self) -> LockedStageView {
        match self {
            LockedStage::Locking(wait) => LockedStageView::Locking(wait@),
            LockedStage::Reading => LockedStageView::Reading,
            LockedStage::Sending(reads) => LockedStageView::Sending(reads@),
            LockedStage::Gathering(collector) => LockedStageView::Gathering(collector@),
            LockedStage::Writing(result) => LockedStageView::Writing(*result),
            LockedStage::Over => LockedStageView::Over,
        }
    }
}

/// A transaction while it runs on this shard.
pub struct LockedRun {
    worker: LockedWorker,
    stage: LockedStage,
}

impl LockedWorker {
    /// There is a shard at all.
    pub open spec fn wf(&self) -> bool {
        self.layout.wf()
    }

    /// `msg` tells the other shards of the reads of this one.
    pub open spec fn is_message(&self, msg: LocalReadResult, reads: Reads) -> bool {
        &&& msg.batch_id == self.batch_id
        &&& msg.tx_id == self.tx@.tx_id
        &&& msg.phase == self.phase
        &&& msg.from_shard == self.shard_id
        &&& msg.status == LocalReadStatus::Success
        &&& msg.reads@ == reads
    }

    /// What the reads of this shard begin to gather.
    pub open spec fn gathering(&self, reads: Reads) -> CollectorView {
        CollectorView {
            phase: self.phase,
            batch_id: self.batch_id,
            tx_id: self.tx@.tx_id,
            shard_count: self.layout.shard_count,
            read_set: self.tx@.read_set,
            expected: self.sources@.remove(self.shard_id),
            received: Set::empty(),
            full_reads: reads,
        }
    }

    /// What follows where `wait` has been granted: the local reads, once it holds every
    /// lock.
    pub open spec fn after_grant(&self, wait: LockWaitView, run: LockedRun, action: LockedAction) -> bool {
        if wait.keys.subset_of(wait.granted) {
            &&& run.stage() == LockedStageView::Reading
            &&& action is Read
            &&& action->Read_0@ == router::local_part(
                self.layout.shard_count,
                self.tx@.read_set,
                self.shard_id,
            )
        } else {
            run.stage() == LockedStageView::Locking(wait) && action is AwaitGrant
        }
    }

    /// What follows where the reads that `v` holds have come in: the local writes, once
    /// these are all.
    pub open spec fn after_reads(
        &self,
        v: CollectorView,
        r: Result<(LockedRun, LockedAction)>,
    ) -> bool {
        let output = executor::execute(self.tx@.op, v.full_reads);
        let overflows = executor::overflows(self.tx@.op, v.full_reads);
        let local = executor::local_writes(output.writes, self.shard_id, self.layout.shard_count);
        let keys = router::local_part(self.layout.shard_count, self.tx@.write_set, self.shard_id);
        let all_in = v.expected.subset_of(v.received);
        let complete = v.full_reads.dom() == v.read_set;
        match r {
            Ok((run, LockedAction::AwaitMessage)) => {
                !all_in && run.stage() == LockedStageView::Gathering(v)
            },
            Ok((run, LockedAction::Overflow)) => {
                all_in && complete && overflows && run.stage() == LockedStageView::Over
            },
            Ok((run, LockedAction::Write(writes))) => {
                &&& all_in && complete && !overflows
                &&& run.stage() == LockedStageView::Writing(output.result)
                &&& model::write_views(writes@) == local
                &&& forall|i: int|
                    0 <= i < local.len() ==> keys.contains((#[trigger] local[i]).target())
            },
            Ok(_) => false,
            Err(
                Error::InvalidBatch(
                    BatchFault::FullReadsMismatch { tx_id, phase, expected, found },
                ),
            ) => {
                &&& all_in && !complete
                &&& tx_id == v.tx_id && phase == v.phase
                &&& expected@ == v.read_set
                &&& found@ == v.full_reads.dom()
            },
            Err(error) => {
                &&& all_in && complete && !overflows
                &&& batch::stray_error(local, keys, self.tx@.tx_id, error)
            },
        }
    }

    /// What follows where this shard has told the others: it gathers where it runs the
    /// transaction, and is done where it does not.
    pub open spec fn after_sending(
        &self,
        reads: Reads,
        r: Result<(LockedRun, LockedAction)>,
    ) -> bool {
        if self.active@.contains(self.shard_id) {
            self.after_reads(self.gathering(reads), r)
        } else {
            r matches Ok((run, action)) && run.stage() == LockedStageView::Over && action is Passive
        }
    }

    fn go_on_locking(self, wait: LockWait) -> (r: (LockedRun, LockedAction))
        requires
            self.wf(),
        ensures
            r.0.wf(),
            r.0.worker() == self,
            self.after_grant(wait@, r.0, r.1),
    {
        if wait.is_done() {
            let keys = self.layout.local_read_keys(&self.tx, self.shard_id);
            (LockedRun { worker: self, stage: LockedStage::Reading }, LockedAction::Read(keys))
        } else {
            (
                LockedRun { worker: self, stage: LockedStage::Locking(wait) },
                LockedAction::AwaitGrant,
            )
        }
    }

    fn go_on_gathering(self, collector: ReadCollector) -> (r: Result<(LockedRun, LockedAction)>)
        requires
            self.wf(),
        ensures
            r matches Ok((run, _)) ==> run.wf() && run.worker() == self,
            self.after_reads(collector@, r),
    {
        if !collector.is_done() {
            return Ok(
                (
                    LockedRun { worker: self, stage: LockedStage::Gathering(collector) },
                    LockedAction::AwaitMessage,
                ),
            );
        }
        let full_reads = match collector.finish() {
            Ok((full_reads, _)) => full_reads,
            Err(error) => return Err(error),
        };
        match run_on_shard(&self.tx, &full_reads, self.shard_id, &self.layout) {
            Ok(Some(outcome)) => Ok(
                (
                    LockedRun { worker: self, stage: LockedStage::Writing(outcome.result) },
                    LockedAction::Write(outcome.writes),
                ),
            ),
            Ok(None) => Ok(
                (LockedRun { worker: self, stage: LockedStage::Over }, LockedAction::Overflow),
            ),
            Err(error) => Err(error),
        }
    }

    fn go_on_sent(self, reads: OrdMap<Key, ReadValue>) -> (r: Result<(LockedRun, LockedAction)>)
        requires
            self.wf(),
        ensures
            r matches Ok((run, _)) ==> run.wf() && run.worker() == self,
            self.after_sending(reads@, r),
    {
        if !self.active.contains(&self.shard_id) {
            return Ok(
                (LockedRun { worker: self, stage: LockedStage::Over }, LockedAction::Passive),
            );
        }
        let collector = ReadCollector::new(
            self.phase,
            self.batch_id,
            &self.tx,
            self.layout,
            self.shard_id,
            &self.sources,
            reads,
        );
        self.go_on_gathering(collector)
    }
}

impl LockedRun {
    /// There is a shard at all.
    pub closed spec fn wf(&self) -> bool {
        self.worker.wf()
    }

    /// Who runs what.
    pub closed spec fn worker(&self) -> LockedWorker {
        self.worker
    }

    /// Where the transaction stands.
    pub closed spec fn stage(&self) -> LockedStageView {
        self.stage.view()
    }

    /// Begins with the wait for the locks of `local_keys`.
    pub fn begin(worker: LockedWorker, local_keys: &OrdSet<Key>) -> (r: (Self, LockedAction))
        requires
            worker.wf(),
        ensures
            r.0.wf(),
            r.0.worker() == worker,
            worker.after_grant(
                (LockWaitView {
                    tx_id: worker.tx@.tx_id,
                    keys: local_keys@,
                    granted: Set::empty(),
                }),
                r.0,
                r.1,
            ),
    {
        let wait = LockWait::new(worker.tx.tx_id, local_keys);
        worker.go_on_locking(wait)
    }

    /// Takes a lock.
    pub fn on_grant(self, grant: &LockGrant) -> (r: Result<(Self, LockedAction)>)
        requires
            self.wf(),
            self.stage() is Locking,
        ensures
            ({
                let wait = self.stage()->Locking_0;
                match r {
                    Ok((run, action)) => {
                        &&& run.wf() && run.worker() == self.worker()
                        &&& wait.keys.contains(grant@)
                        &&& !wait.granted.contains(grant@)
                        &&& self.worker().after_grant(
                            LockWaitView { granted: wait.granted.insert(grant@), ..wait },
                            run,
                            action,
                        )
                    },
                    Err(Error::LockInvariant(LockFault::UnexpectedGrant { tx_id, key })) => {
                        &&& !wait.keys.contains(grant@)
                        &&& tx_id == wait.tx_id && key@ == grant@
                    },
                    Err(Error::LockInvariant(LockFault::DuplicateGrant { tx_id, key })) => {
                        &&& wait.keys.contains(grant@)
                        &&& wait.granted.contains(grant@)
                        &&& tx_id == wait.tx_id && key@ == grant@
                    },
                    Err(_) => false,
                }
            }),
    {
        match self.stage {
            LockedStage::Locking(wait) => {
                let mut wait = wait;
                match wait.on_grant(grant) {
                    Ok(_) => Ok(self.worker.go_on_locking(wait)),
                    Err(error) => Err(error),
                }
            },
            _ => unreached(),
        }
    }

    /// Takes the local reads: they are sent to the shards that run the transaction, where
    /// it needs any from here.
    pub fn on_reads(self, reads: OrdMap<Key, ReadValue>) -> (r: Result<(Self, LockedAction)>)
        requires
            self.wf(),
            self.stage() == LockedStageView::Reading,
        ensures
            r matches Ok((run, _)) ==> run.wf() && run.worker() == self.worker(),
            if self.worker().sources@.contains(self.worker().shard_id) {
                &&& r matches Ok((run, LockedAction::Send(msg, targets)))
                &&& run.stage() == LockedStageView::Sending(reads@)
                &&& self.worker().is_message(msg, reads@)
                &&& targets@ == collections::sorted::<ShardId>(
                    self.worker().active@.remove(self.worker().shard_id),
                )
            } else {
                self.worker().after_sending(reads@, r)
            },
    {
        let worker = self.worker;
        if !worker.sources.contains(&worker.shard_id) {
            return worker.go_on_sent(reads);
        }
        let msg = LocalReadResult {
            batch_id: worker.batch_id,
            tx_id: worker.tx.tx_id,
            phase: worker.phase,
            from_shard: worker.shard_id,
            status: LocalReadStatus::Success,
            reads: reads.clone(),
        };
        let mut others = worker.active.clone();
        let _ = others.remove(&worker.shard_id);
        let targets = shard_list(&others);
        Ok(
            (
                LockedRun { worker, stage: LockedStage::Sending(reads) },
                LockedAction::Send(msg, targets),
            ),
        )
    }

    /// The local reads have been sent.
    pub fn on_sent(self) -> (r: Result<(Self, LockedAction)>)
        requires
            self.wf(),
            self.stage() is Sending,
        ensures
            r matches Ok((run, _)) ==> run.wf() && run.worker() == self.worker(),
            self.worker().after_sending(self.stage()->Sending_0, r),
    {
        match self.stage {
            LockedStage::Sending(reads) => self.worker.go_on_sent(reads),
            _ => unreached(),
        }
    }

    /// Takes the reads of another shard.
    pub fn on_message(self, msg: LocalReadResult) -> (r: Result<(Self, LockedAction)>)
        requires
            self.wf(),
            self.stage() is Gathering,
        ensures
            r matches Ok((run, _)) ==> run.wf() && run.worker() == self.worker(),
            ({
                let v = self.stage()->Gathering_0;
                if v.accepts(msg) {
                    self.worker().after_reads(v.with(msg), r)
                } else {
                    r is Err && v.refusal(msg, r->Err_0)
                }
            }),
    {
        match self.stage {
            LockedStage::Gathering(collector) => {
                let mut collector = collector;
                match collector.offer(msg) {
                    Ok(_) => self.worker.go_on_gathering(collector),
                    Err(error) => Err(error),
                }
            },
            _ => unreached(),
        }
    }

    /// The local writes have been applied: this is the result.
    pub fn on_written(self) -> (r: TxResult)
        requires
            self.stage() is Writing,
        ensures
            r == self.stage()->Writing_0,
    {
        match self.stage {
            LockedStage::Writing(result) => result,
            _ => unreached(),
        }
    }
}

/// What a shard that ran a transaction reports, and whether it answers the client.
pub fn completion(
    tx: &OrderedTx,
    result: TxResult,
    result_shard: ShardId,
    shard_id: ShardId,
) -> (r: (TxResultRecord, bool))
    ensures
        r.0 == (TxResultRecord { tx_id: tx@.tx_id, shard_id, result }),
        r.1 == (result_shard == shard_id),
{
    (TxResultRecord { tx_id: tx.tx_id, shard_id, result }, result_shard == shard_id)
}

} // verus!
