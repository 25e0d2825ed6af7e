//! Calls that are refused: which error comes, and what it names.

use crate::checker::reference;
use crate::checker::reports;
use crate::checker::reports::assert_scc_reorders_consistent;
use crate::collections::{OrdMap, OrdSet, SortKey};
use crate::engine::aria::state::AriaBatchState;
use crate::engine::aria::AriaStageOutcome;
use crate::engine::reads::{LocalReadResult, ReadCollector};
use crate::engine::reorder::install_scc_successes;
use crate::error::{BatchFault, CheckerFault, Error, Result, SpeculationFault};
use crate::laws::calls::speculating;
use crate::model::{
    Batch, BatchId, BatchView, Inode, Key, LocalReadStatus, NodeKind, OrderedTx, ReadPhase,
    ReadValue, ReorderView, SccReorderRecord, ShardId, TxExecutionOutput, TxResult,
};
use crate::path::Path;
use crate::router;
use crate::router::ShardLayout;
use crate::scc::commit;
use crate::scc::commit::{CommitSequence, CommitSlotState, SlotView};
use crate::scc::delta;
use crate::scc::delta::{apply_delta_to_state, output_to_delta, TxDelta};
use crate::scc::plan::{SccPhase, SccTxPlan};
use crate::scc::read;
use crate::scc::read::{materialized_local_read, MaterializedRead};
use crate::storage::RedbInMemoryInodeStore;
use vstd::prelude::*;

verus! {

/// A slot that is not set says which slot it is and why: it would go back, it is not
/// there, or it is set already.
pub proof fn lemma_slot_refused_call(
    slots: &mut CommitSequence,
    index: usize,
    state: CommitSlotState,
    r: Result<()>,
)
    requires
        call_ensures(CommitSequence::set_terminal_once, (slots, index, state), r),
    ensures
        state@ == SlotView::Pending ==> r == Err::<(), Error>(
            Error::InvalidBatch(BatchFault::SlotBackToPending { index }),
        ),
        state@ != SlotView::Pending && index >= old(slots)@.len() ==> (r matches Err(
            Error::InvalidBatch(BatchFault::SlotOutOfRange { index: i, len }),
        ) && i == index && len == old(slots)@.len()),
        state@ != SlotView::Pending && index < old(slots)@.len() && old(slots)@[index as int]
            != SlotView::Pending ==> r == Err::<(), Error>(
            Error::InvalidBatch(BatchFault::SlotAlreadySet { index }),
        ),
{
}

/// Why a message with reads is not taken: it is about something else; nobody waits for
/// its shard; its shard has sent already; its shard did not succeed; it brings other keys
/// than were asked for; or it brings one that is known. Only a speculating transaction
/// fails for a failure elsewhere. A Calvin transaction looks at the status first.
pub proof fn lemma_message_refused_call(
    reads: &mut ReadCollector,
    msg: LocalReadResult,
    r: Result<()>,
)
    requires
        call_ensures(ReadCollector::offer, (reads, msg), r),
    ensures
        ({
            let v = old(reads)@;
            let ours = msg.batch_id == v.batch_id && msg.tx_id == v.tx_id && msg.phase == v.phase;
            let waited = v.expected.contains(msg.from_shard);
            let first = !v.received.contains(msg.from_shard);
            let well = msg.status == LocalReadStatus::Success;
            let speculates = v.phase == ReadPhase::SccEffect || v.phase == ReadPhase::SccCondition;
            let keys_fit = forall|k: Path| #[trigger]
                msg.reads@.contains_key(k) <==> v.read_set.contains(k) && router::shard_of(
                    v.shard_count,
                    k,
                ) == msg.from_shard;
            &&& !ours ==> (r matches Err(
                Error::InvalidBatch(
                    BatchFault::ReadMisrouted {
                        tx_id,
                        phase,
                        batch_id,
                        got_batch,
                        got_tx,
                        got_phase,
                    },
                ),
            ) && tx_id == v.tx_id && phase == v.phase && batch_id == v.batch_id && got_batch
                == msg.batch_id && got_tx == msg.tx_id && got_phase == msg.phase)
            &&& ours && !waited && (well || v.phase != ReadPhase::Calvin) ==> (r matches Err(
                Error::InvalidBatch(BatchFault::ReadUnexpected { tx_id, phase, from_shard }),
            ) && tx_id == v.tx_id && phase == v.phase && from_shard == msg.from_shard)
            &&& ours && waited && !first && (well || v.phase != ReadPhase::Calvin) ==> (
            r matches Err(
                Error::InvalidBatch(BatchFault::ReadTwice { tx_id, phase, from_shard }),
            ) && tx_id == v.tx_id && phase == v.phase && from_shard == msg.from_shard)
            &&& ours && !well && (waited && first || v.phase == ReadPhase::Calvin) && !speculates
                ==> (r matches Err(
                Error::InvalidBatch(
                    BatchFault::ReadNotServed { tx_id, phase, from_shard, status },
                ),
            ) && tx_id == v.tx_id && phase == v.phase && from_shard == msg.from_shard && status
                == msg.status)
            &&& ours && !well && waited && first && speculates ==> (r matches Err(
                Error::SpeculationFailed(
                    SpeculationFault::RemoteFailure { tx_id, phase, from_shard },
                ),
            ) && tx_id == v.tx_id && phase == v.phase && from_shard == msg.from_shard)
            &&& ours && waited && first && well && !keys_fit ==> (r matches Err(
                Error::InvalidBatch(
                    BatchFault::ReadKeysMismatch { tx_id, phase, from_shard, expected, found },
                ),
            ) && tx_id == v.tx_id && from_shard == msg.from_shard && found@ == msg.reads@.dom())
            &&& ours && waited && first && well && keys_fit ==> (r matches Err(error) ==> (
            error matches Error::InvalidBatch(BatchFault::ReadKeyTwice { tx_id, phase, key })
                && tx_id == v.tx_id && msg.reads@.contains_key(key@) && v.full_reads.contains_key(
                key@,
            )))
        }),
{
    let v = old(reads)@;
    let asked = router::local_part(v.shard_count, v.read_set, msg.from_shard);
    if forall|k: Path| #[trigger]
        msg.reads@.contains_key(k) <==> v.read_set.contains(k) && router::shard_of(
            v.shard_count,
            k,
        ) == msg.from_shard {
        assert(msg.reads@.dom() =~= asked);
    } else if v.has_keys(msg) {
        assert forall|k: Path| #[trigger]
            msg.reads@.contains_key(k) <==> v.read_set.contains(k) && router::shard_of(
                v.shard_count,
                k,
            ) == msg.from_shard by {
            assert(msg.reads@.dom().contains(k) == asked.contains(k));
        }
    }
}

/// Why what a transaction is to do here is not taken: another than the one that answers
/// sent it, it says wrongly whether this is that one, it writes to a key of another shard,
/// or it came before.
pub proof fn lemma_stage_refused_call(
    batch: &mut AriaBatchState,
    layout: &ShardLayout,
    shard: ShardId,
    outcome: AriaStageOutcome,
    r: Result<()>,
)
    requires
        old(batch).wf(),
        layout.wf(),
        call_ensures(AriaBatchState::stage_outcome, (batch, layout, shard, outcome), r),
    ensures
        ({
            let o = outcome@;
            let answers = o.tx_id as int % layout.shard_count as int;
            let flagged = o.is_result_shard == (shard == answers);
            &&& o.from_shard != answers ==> (r matches Err(
                Error::InvalidBatch(BatchFault::AriaStageSender { tx_id, from_shard, expected }),
            ) && tx_id == o.tx_id && from_shard == o.from_shard && expected == answers)
            &&& o.from_shard == answers && !flagged ==> (r matches Err(
                Error::InvalidBatch(
                    BatchFault::AriaStageFlag { tx_id, is_result_shard, expected, shard_id },
                ),
            ) && tx_id == o.tx_id && is_result_shard == o.is_result_shard && expected
                == !o.is_result_shard && shard_id == shard)
            &&& o.from_shard == answers && flagged ==> (r matches Err(error) ==> match error {
                Error::InvalidBatch(BatchFault::AriaWriteMisrouted { key, shard_id, owner }) => {
                    &&& shard_id == shard && owner != shard
                    &&& owner == router::shard_of(layout.shard_count, key@)
                    &&& exists|i: int|
                        0 <= i < o.writes.len() && (#[trigger] o.writes[i]).target() == key@
                            && forall|j: int|
                            0 <= j < i ==> router::shard_of(
                                layout.shard_count,
                                (#[trigger] o.writes[j]).target(),
                            ) == shard
                },
                Error::InvalidBatch(
                    BatchFault::AriaStagedTwice { batch_id, tx_index, shard_id },
                ) => {
                    &&& batch_id == o.batch_id && tx_index == o.tx_index && shard_id == shard
                    &&& old(batch)@.staged.contains_key(o.tx_index)
                },
                _ => false,
            })
        }),
{
    let o = outcome@;
    if let Err(Error::InvalidBatch(BatchFault::AriaWriteMisrouted { key, shard_id, owner })) = r {
        let i = choose|i: int| #[trigger]
            crate::engine::aria::state::first_misrouted(
                o.writes,
                layout.shard_count,
                shard,
                i,
                key@,
                owner,
            );
        assert(o.writes[i].target() == key@);
        let before = o.writes.take(i);
        assert forall|j: int| 0 <= j < i implies router::shard_of(
            layout.shard_count,
            (#[trigger] o.writes[j]).target(),
        ) == shard by {
            assert(before[j] == o.writes[j]);
        }
    }
}

/// A key that is read of the wrong shard is named, with the shard on which it lives; what
/// else goes wrong is the fault of the store.
pub proof fn lemma_read_refused_call(
    batch: &mut AriaBatchState,
    store: &RedbInMemoryInodeStore,
    layout: &ShardLayout,
    shard: ShardId,
    index: usize,
    key: &Key,
    r: Result<ReadValue>,
)
    requires
        old(batch).wf(),
        store.wf(),
        layout.wf(),
        call_ensures(
            AriaBatchState::read_snapshot,
            (batch, store, layout, shard, index, key),
            r,
        ),
    ensures
        ({
            let owner = router::shard_of(layout.shard_count, key@);
            &&& owner != shard ==> (r matches Err(
                Error::InvalidBatch(
                    BatchFault::AriaReadMisrouted { key: k, shard_id, owner: o },
                ),
            ) && k@ == key@ && shard_id == shard && o == owner)
            &&& owner == shard ==> (r matches Err(error) ==> error is RedbTransaction
                || error is RedbTable || error is RedbStorage || error is RedbCommit)
        }),
{
}

/// A report of a shard that there is not, or a second one, is refused and named.
pub proof fn lemma_report_refused_call(
    batch: &mut AriaBatchState,
    batch_id: BatchId,
    from: ShardId,
    failed: OrdSet<usize>,
    shard_count: u64,
    r: Result<()>,
    i: usize,
)
    requires
        old(batch).wf(),
        call_ensures(
            AriaBatchState::record_local_failures,
            (batch, batch_id, from, failed, shard_count),
            r,
        ),
    ensures
        from >= shard_count ==> r == Err::<(), Error>(
            Error::InvalidBatch(
                BatchFault::AriaReportShard { batch_id, from_shard: from, shard_count },
            ),
        ) && final(batch)@ == old(batch)@,
        from < shard_count ==> (r is Err <==> old(batch)@.failures.contains_key(from)),
        from < shard_count && r is Err ==> r == Err::<(), Error>(
            Error::InvalidBatch(BatchFault::AriaFailuresTwice { batch_id, from_shard: from }),
        ),
        from < shard_count ==> final(batch)@.failures.contains_key(from) && (
        final(batch)@.failures[from].contains(i) <==> failed@.contains(i)),
{
}

/// Changes that do not fit stop at the first that does not: the error names its key and
/// what is wrong there, as the changes before it left it.
pub proof fn lemma_changes_stop_call(
    start: &mut OrdMap<Key, Inode>,
    change: &TxDelta,
    r: Result<()>,
)
    requires
        call_ensures(apply_delta_to_state, (start, change), r),
    ensures
        r matches Err(error) ==> match error {
            Error::InvalidBatch(BatchFault::CountDeltaOnMissing { key }) => {
                !final(start)@.contains_key(key@)
            },
            Error::InvalidBatch(BatchFault::CountDeltaOnFile { key }) => {
                final(start)@.contains_key(key@) && final(start)@[key@].kind == NodeKind::File
            },
            Error::InvalidBatch(BatchFault::CountDeltaUnderflow { key }) => {
                &&& final(start)@.contains_key(key@)
                &&& final(start)@[key@].kind == NodeKind::Directory
                &&& exists|i: int|
                    0 <= i < change@.len() && (#[trigger] change@[i]).target() == key@
                        && change@[i] is AddIntegerField && !(0
                        <= final(start)@[key@].child_count + change@[i]->AddIntegerField_delta
                        <= u64::MAX)
            },
            _ => false,
        },
{
    if let Err(error) = r {
        let reached = final(start)@;
        let i = choose|i: int|
            0 <= i < change@.len() && #[trigger] delta::apply_delta(
                old(start)@,
                change@.take(i),
            ) == Some(reached) && delta::misfit(reached, change@[i], error);
        assert(delta::misfit(reached, change@[i], error));
        assert(change@[i].target() == change@[i]->AddIntegerField_key);
    }
}

/// Why changes cannot be worked out of what a transaction did: it did not succeed, a key
/// that it may write was not read, it wrote another key, or a count changes too far.
pub proof fn lemma_changes_fault_call(
    tx: &OrderedTx,
    reads: &OrdMap<Key, ReadValue>,
    output: TxExecutionOutput,
    r: Result<TxDelta>,
)
    requires
        call_ensures(output_to_delta, (tx, reads, output), r),
        output@.result == TxResult::Success,
    ensures
        ({
            let unread = exists|k: Path| #[trigger]
                tx@.write_set.contains(k) && !reads@.contains_key(k);
            let stray = exists|i: int|
                0 <= i < output@.writes.len() && !tx@.write_set.contains(
                    (#[trigger] output@.writes[i]).target(),
                );
            &&& unread ==> r == Err::<TxDelta, Error>(
                Error::InvalidBatch(BatchFault::MissingDeltaRead),
            )
            &&& !unread && stray ==> (r matches Err(
                Error::InvalidBatch(BatchFault::OutsideWriteSet { tx_id, key }),
            ) && tx_id == tx@.tx_id && !tx@.write_set.contains(key@) && exists|i: int|
                0 <= i < output@.writes.len() && (#[trigger] output@.writes[i]).target() == key@)
            &&& !unread && !stray ==> (r matches Err(error) ==> (error matches Error::InvalidBatch(
                BatchFault::CountDeltaOutOfRange { key },
            )))
        }),
{
    let unread = exists|k: Path| #[trigger] tx@.write_set.contains(k) && !reads@.contains_key(k);
    let stray = exists|i: int|
        0 <= i < output@.writes.len() && !tx@.write_set.contains(
            (#[trigger] output@.writes[i]).target(),
        );
    assert(delta::all_read(tx@.write_set, reads@) <==> !unread);
    assert(delta::within(output@.writes, tx@.write_set) <==> !stray);
    if let Err(Error::InvalidBatch(BatchFault::OutsideWriteSet { tx_id, key })) = r {
        let i = choose|i: int| #[trigger]
            delta::outside_at(output@.writes, tx@.write_set, i, key@);
        assert(output@.writes[i].target() == key@);
    }
}

/// Why a read cannot be had: a key of it is not known from before the batch, and the first
/// such is named; a slot that it must see failed, is not there, or has no list of what was
/// written; or changes in one do not fit.
pub proof fn lemma_read_stops_call(
    plan: &SccTxPlan,
    phase: SccPhase,
    keys: &OrdSet<Key>,
    writes: &Vec<OrdSet<Key>>,
    base: &OrdMap<Key, ReadValue>,
    slots: &CommitSequence,
    r: Result<MaterializedRead>,
)
    requires
        call_ensures(materialized_local_read, (plan, phase, keys, writes, base, slots), r),
    ensures
        ({
            let unread = exists|k: Path| #[trigger] keys@.contains(k) && !base@.contains_key(k);
            &&& unread ==> (r matches Err(
                Error::InvalidBatch(BatchFault::MissingBaseRead { key }),
            ) && keys@.contains(key@) && !base@.contains_key(key@) && forall|k: Path| #[trigger]
                keys@.contains(k) && !base@.contains_key(k) ==> k == key@ || Key::before(key@, k))
            &&& !unread ==> (r matches Err(error) ==> match error {
                Error::SpeculationFailed(SpeculationFault::FailedSlot { index }) => {
                    &&& index < slots@.len() && slots@[index as int] is Failed
                    &&& forall|j: int|
                        0 <= j < index ==> (#[trigger] slots@[j] is NoOp || slots@[j] is Delta)
                },
                Error::InvalidBatch(BatchFault::SlotOutOfRange { index, len }) => {
                    &&& index == len && len == slots@.len()
                    &&& forall|j: int|
                        0 <= j < index ==> (#[trigger] slots@[j] is NoOp || slots@[j] is Delta)
                },
                Error::InvalidBatch(BatchFault::MissingLocalWrites { index }) => {
                    &&& writes@.len() <= index < slots@.len()
                    &&& slots@[index as int] is Delta
                },
                Error::InvalidBatch(BatchFault::CountDeltaOnMissing { .. }) => true,
                Error::InvalidBatch(BatchFault::CountDeltaOnFile { .. }) => true,
                Error::InvalidBatch(BatchFault::CountDeltaUnderflow { .. }) => true,
                _ => false,
            })
        }),
{
    let n = read::prefix_len(*plan, phase);
    let s = read::state_of(base@.restrict(keys@));
    let by_tx = read::key_sets(writes@);
    speculating::lemma_replay(s, slots@, by_tx, keys@, n);
    let unread = exists|k: Path| #[trigger] keys@.contains(k) && !base@.contains_key(k);
    assert(delta::all_read(keys@, base@) <==> !unread);
}

/// What stops the installation of a batch: a slot that is not listed as failed but failed
/// or is still pending, and it is named; or changes of one, or the store.
pub proof fn lemma_install_refused_call(
    store: &mut RedbInMemoryInodeStore,
    slots: &Vec<CommitSlotState>,
    failed: &OrdSet<usize>,
    r: Result<()>,
    index: usize,
)
    requires
        old(store).wf(),
        call_ensures(install_scc_successes, (store, slots, failed), r),
    ensures
        r == Err::<(), Error>(Error::InvalidBatch(BatchFault::SlotStillPending { index })) ==> index
            < slots@.len() && !failed@.contains(index) && slots@[index as int]@
            == SlotView::Pending,
        r == Err::<(), Error>(Error::InvalidBatch(BatchFault::SlotFailedUnlisted { index }))
            ==> index < slots@.len() && !failed@.contains(index) && slots@[index as int]@
            == SlotView::Failed,
        !(exists|i: int|
            0 <= i < slots@.len() && !failed@.contains(i as usize) && (#[trigger] slots@[i])@
                is Delta) && slots@.len() <= usize::MAX ==> (r matches Err(error) ==> error
            matches Error::InvalidBatch(_)),
{
    let views = commit::slot_views(slots@);
    assert forall|i: int| 0 <= i < views.len() implies views[i] == slots@[i]@ by {}
}

/// The order that a shard reports of a batch is refused for the first of its places that
/// is beyond the batch or occurs before, and otherwise for a place that is missing.
pub proof fn lemma_order_refused(batch: BatchView, record: ReorderView, fault: CheckerFault)
    requires
        reference::record_fault(batch, record, fault),
    ensures
        ({
            let places = record.successes + record.fallbacks;
            let len = batch.txs.len();
            match fault {
                CheckerFault::ReorderBatchMismatch { record: a, batch: b } => {
                    record.batch_id != batch.batch_id && a == record.batch_id && b == batch.batch_id
                },
                CheckerFault::ReorderOutOfRange { batch_id, index, len: l } => {
                    &&& batch_id == batch.batch_id && batch_id == record.batch_id
                    &&& l == len && places.contains(index) && index >= len
                },
                CheckerFault::ReorderDuplicate { batch_id, index } => {
                    &&& batch_id == batch.batch_id && batch_id == record.batch_id
                    &&& index < len
                    &&& exists|p: int, q: int|
                        0 <= p < q < places.len() && #[trigger] places[p] == index
                            && #[trigger] places[q] == index
                },
                CheckerFault::ReorderIncomplete { batch_id, len: l, seen } => {
                    &&& batch_id == batch.batch_id && batch_id == record.batch_id && l == len
                    &&& forall|i: usize| #[trigger] seen@.contains(i) <==> places.contains(i)
                    &&& exists|i: usize| i < len && !(#[trigger] places.contains(i))
                    &&& places.no_duplicates()
                },
                _ => false,
            }
        }),
{
    let places = record.successes + record.fallbacks;
    assert(places == reference::order_of(record));
    match fault {
        CheckerFault::ReorderDuplicate { batch_id, index } => {
            let q = choose|q: int|
                0 <= q < places.len() && #[trigger] places[q] == index && index < batch.txs.len()
                    && places.take(q).contains(index) && reference::sound_order(
                    places,
                    batch.txs.len() as int,
                    q,
                );
            let p = choose|p: int| 0 <= p < places.take(q).len() && places.take(q)[p] == index;
            assert(places[p] == index && places[q] == index);
        },
        CheckerFault::ReorderIncomplete { batch_id, len, seen } => {
            assert forall|i: usize| #[trigger] seen@.contains(i) <==> places.contains(i) by {
                assert(places.to_set().contains(i) == places.contains(i));
            }
            assert forall|p: int, q: int|
                0 <= p < places.len() && 0 <= q < places.len() && p != q implies places[p]
                != places[q] by {
                if p < q {
                    assert(places[p] != places[q]);
                } else {
                    assert(places[q] != places[p]);
                }
            }
        },
        _ => {},
    }
}

/// Reports are refused by what they name: a batch that occurs twice, one that nobody knows,
/// a shard that reports one twice, or a shard that leaves one out.
pub proof fn lemma_reports_refused_call(
    batches: &[Batch],
    reports: Vec<(ShardId, Vec<SccReorderRecord>)>,
    r: Result<OrdMap<BatchId, SccReorderRecord>>,
)
    requires
        call_ensures(assert_scc_reorders_consistent, (batches, reports), r),
    ensures
        match r {
            Err(Error::Checker(CheckerFault::DuplicateBatch { batch_id })) => {
                exists|i: int, j: int|
                    0 <= i < j < batches@.len() && (#[trigger] batches@[i])@.batch_id == batch_id
                        && (#[trigger] batches@[j])@.batch_id == batch_id
            },
            Err(Error::Checker(CheckerFault::UnknownBatch { shard_id, batch_id })) => {
                &&& forall|i: int|
                    0 <= i < batches@.len() ==> (#[trigger] batches@[i])@.batch_id != batch_id
                &&& exists|s: int, p: int|
                    0 <= s < reports@.len() && (#[trigger] reports@[s]).0 == shard_id && 0 <= p
                        < reports@[s].1@.len() && (#[trigger] reports@[s].1@[p])@.batch_id
                        == batch_id
            },
            Err(Error::Checker(CheckerFault::DuplicateReorder { shard_id })) => {
                exists|s: int, p: int, q: int|
                    0 <= s < reports@.len() && (#[trigger] reports@[s]).0 == shard_id && 0 <= p < q
                        < reports@[s].1@.len() && (#[trigger] reports@[s].1@[p])@.batch_id == (
                    #[trigger] reports@[s].1@[q])@.batch_id
            },
            Err(
                Error::Checker(CheckerFault::ReorderBatchesMismatch { shard_id, expected, found }),
            ) => {
                &&& exists|id: BatchId| #[trigger] expected@.contains(id) && !found@.contains(id)
                &&& forall|id: BatchId| #[trigger]
                    expected@.contains(id) ==> exists|i: int|
                        0 <= i < batches@.len() && (#[trigger] batches@[i])@.batch_id == id
                &&& exists|s: int| 0 <= s < reports@.len() && (#[trigger] reports@[s]).0 == shard_id
            },
            _ => true,
        },
{
    let views = reference::batch_views(batches@);
    let sent = reports::report_views(reports@);
    assert forall|i: int| 0 <= i < views.len() implies views[i] == batches@[i]@ by {}
    if let Err(error) = r {
        if let Error::Checker(CheckerFault::DuplicateBatch { batch_id }) = error {
            let n = choose|n: int|
                0 <= n < views.len() && #[trigger] reports::distinct_ids(views, n)
                    && views[n].batch_id == batch_id && reports::known_batch(
                    views.take(n),
                    batch_id,
                );
            let i = choose|i: int|
                0 <= i < views.take(n).len() && (#[trigger] views.take(n)[i]).batch_id == batch_id;
            assert(batches@[i]@.batch_id == batch_id && batches@[n]@.batch_id == batch_id);
        } else {
            let s = choose|s: int|
                0 <= s < sent.len() && #[trigger] reports::good_reports(views, sent, s)
                    && reports::report_error(views, sent[s].0, sent[s].1, error);
            let records = sent[s].1;
            assert(sent[s].0 == reports@[s].0);
            assert forall|p: int| 0 <= p < records.len() implies records[p]
                == reports@[s].1@[p]@ by {}
            match error {
                Error::Checker(CheckerFault::UnknownBatch { shard_id, batch_id }) => {
                    let p = choose|p: int|
                        0 <= p < records.len() && #[trigger] reports::good_records(
                            views,
                            records,
                            p,
                        ) && records[p].batch_id == batch_id && !reports::known_batch(
                            views,
                            batch_id,
                        );
                    assert(reports@[s].1@[p]@.batch_id == batch_id);
                    assert forall|i: int| 0 <= i < batches@.len() implies (
                    #[trigger] batches@[i])@.batch_id != batch_id by {
                        assert(views[i].batch_id != batch_id);
                    }
                },
                Error::Checker(CheckerFault::DuplicateReorder { shard_id }) => {
                    let q = choose|q: int|
                        0 <= q < records.len() && #[trigger] reports::good_records(
                            views,
                            records,
                            q,
                        ) && reports::good_record(views, records[q]) && reports::reported(
                            records,
                            records[q].batch_id,
                            q,
                        );
                    let p = choose|p: int|
                        0 <= p < q && (#[trigger] records[p]).batch_id == records[q].batch_id;
                    assert(reports@[s].1@[p]@.batch_id == reports@[s].1@[q]@.batch_id);
                },
                Error::Checker(
                    CheckerFault::ReorderBatchesMismatch { shard_id, expected, found },
                ) => {
                    let id = choose|id: BatchId| #[trigger]
                        reports::known_batch(views, id) && !reports::reported(
                            records,
                            id,
                            records.len() as int,
                        );
                    assert(expected@.contains(id) && !found@.contains(id));
                    assert forall|id: BatchId| #[trigger] expected@.contains(id) implies exists|
                        i: int,
                    |
                        0 <= i < batches@.len() && (#[trigger] batches@[i])@.batch_id == id by {
                        let i = choose|i: int|
                            0 <= i < views.len() && (#[trigger] views[i]).batch_id == id;
                        assert(batches@[i]@.batch_id == id);
                    }
                },
                _ => {},
            }
        }
    }
}

} // verus!
