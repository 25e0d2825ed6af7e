//! Calls on keys, on the store of a shard and on the sequencer.

use crate::collections::{OrdMap, OrdSet};
use crate::engine::batch;
use crate::engine::sequencer;
use crate::engine::sequencer::{
    batch_summary, SealedBatch, Sequencer, SubmitBatchSummary, SubmittedBatch, SubmittedTx,
};
use crate::error::{Error, Result};
use crate::executor;
use crate::laws::names;
use crate::laws::outcomes;
use crate::model;
use crate::model::{
    parent_key, BatchId, FsOp, Inode, Key, ReadValue, ShardId, TxId, TxResultRecord, WriteOp,
    WriteOpView,
};
use crate::path;
use crate::path::Path;
use crate::router;
use crate::scc::delta;
use crate::scc::delta::TxDelta;
use crate::state;
use crate::storage::RedbInMemoryInodeStore;
use vstd::prelude::*;

verus! {

/// A text of plain names, each after a slash, is a key and stays as it is. The directory
/// that holds it is what stands before the last name, or the root.
pub proof fn lemma_key_call(
    text: String,
    front: Path,
    name: Seq<char>,
    r: Result<Key>,
    parent: Result<Key>,
    same: Result<Key>,
)
    requires
        text@ == front + seq!['/'] + name,
        front.len() == 0 || path::valid_path(front) && front != seq!['/'],
        name.len() > 0,
        name != seq!['.'] && name != seq!['.', '.'],
        forall|i: int| 0 <= i < name.len() ==> name[i] != '/',
        call_ensures(Key::new, (text,), r),
        call_ensures(Key::parent, (&r->Ok_0,), parent),
        call_ensures(parent_key, (&r->Ok_0,), same),
    ensures
        r is Ok,
        r->Ok_0@ == text@,
        parent is Ok,
        parent->Ok_0@ == (if front.len() == 0 {
            seq!['/']
        } else {
            front
        }),
        same is Ok,
        same->Ok_0@ == parent->Ok_0@,
{
    names::lemma_paths_are_built(front, name);
    names::lemma_parent(front, name);
    assert(path::root_path() =~= seq!['/']);
    assert(text@.len() > 1);
}

/// The root is a key that has no parent, and is the only one that is the root.
pub proof fn lemma_root_call(key: Key, r: Result<Key>, other: &Key, is: bool)
    requires
        call_ensures(Key::root, (), key),
        call_ensures(Key::parent, (&key,), r),
        call_ensures(Key::is_root, (other,), is),
    ensures
        key@ == seq!['/'],
        r is Err,
        is <==> other@ == seq!['/'],
{
    assert(path::root_path() =~= seq!['/']);
}

/// What is written is what is read afterwards; what is not written is as before.
pub proof fn lemma_store_call(
    store: &mut RedbInMemoryInodeStore,
    writes: &Vec<WriteOp>,
    earlier: Seq<WriteOpView>,
    last: WriteOpView,
    r: Result<()>,
    after: RedbInMemoryInodeStore,
    keys: &OrdSet<Key>,
    found: Result<OrdMap<Key, ReadValue>>,
    all: Result<OrdMap<Key, Inode>>,
    key: Path,
)
    requires
        old(store).wf(),
        call_ensures(RedbInMemoryInodeStore::apply_writes_atomically, (store, writes), r),
        model::write_views(writes@) == earlier.push(last),
        after == *final(store),
        call_ensures(RedbInMemoryInodeStore::read_many, (&after, keys), found),
        call_ensures(RedbInMemoryInodeStore::dump, (&after,), all),
        r is Ok,
        found is Ok,
        all is Ok,
    ensures
        found->Ok_0@.contains_key(key) <==> keys@.contains(key),
        keys@.contains(key) ==> match last {
            WriteOpView::Put { key: k, value } if k == key => found->Ok_0@[key]
                == ReadValue::Present(value),
            WriteOpView::Delete { key: k } if k == key => found->Ok_0@[key] == ReadValue::Missing,
            _ => found->Ok_0@[key] == state::value_in(
                state::apply_writes(old(store)@, earlier),
                key,
            ),
        },
        keys@.contains(key) ==> (found->Ok_0@[key] is Present <==> all->Ok_0@.contains_key(key)),
        keys@.contains(key) && all->Ok_0@.contains_key(key) ==> found->Ok_0@[key]
            == ReadValue::Present(all->Ok_0@[key]),
{
    outcomes::lemma_writes_are_read(old(store)@, earlier, last, key);
    outcomes::lemma_read_finds(after@, keys@, key);
}

/// Changes are made all or none: whatever comes back, what is stored is what was stored or
/// what all of them lead to; if all is well it is the latter, and it is so only where all
/// of them fit.
pub proof fn lemma_all_or_none_call(
    store: &mut RedbInMemoryInodeStore,
    change: &TxDelta,
    r: Result<()>,
)
    requires
        old(store).wf(),
        call_ensures(RedbInMemoryInodeStore::apply_delta_atomically, (store, change), r),
    ensures
        final(store)@ == old(store)@ || delta::apply_delta(old(store)@, change@) == Some(
            final(store)@,
        ),
        r is Ok ==> delta::apply_delta(old(store)@, change@) == Some(final(store)@),
        delta::apply_delta(old(store)@, change@) is None ==> r is Err && final(store)@ == old(store)@,
{
}

/// A new store holds nothing.
pub proof fn lemma_new_store_call(
    r: Result<RedbInMemoryInodeStore>,
    all: Result<OrdMap<Key, Inode>>,
    key: Path,
)
    requires
        call_ensures(RedbInMemoryInodeStore::new, (), r),
        r is Ok,
        call_ensures(RedbInMemoryInodeStore::dump, (&r->Ok_0,), all),
        all is Ok,
    ensures
        !all->Ok_0@.contains_key(key),
{
}

/// A transaction that is submitted gets the next id, and the one after it the id after
/// that. It comes last in the open batch, or first in a new one, with its place and the
/// keys of its operation; the batch is closed if and only if it is then full.
pub proof fn lemma_submit_call(
    seq: &mut Sequencer,
    op: FsOp,
    r: Result<SubmittedTx>,
    after: &mut Sequencer,
    next_op: FsOp,
    next: Result<SubmittedTx>,
)
    requires
        call_requires(Sequencer::handle_submit_tx, (seq, op)),
        call_ensures(Sequencer::handle_submit_tx, (seq, op), r),
        old(after)@ == final(seq)@,
        call_requires(Sequencer::handle_submit_tx, (after, next_op)),
        call_ensures(Sequencer::handle_submit_tx, (after, next_op), next),
        old(seq)@.next_tx_id < u64::MAX,
        old(seq)@.next_batch_id < u64::MAX,
        old(seq)@.sound(),
    ensures
        r is Ok && next is Ok,
        ({
            let before = old(seq)@;
            let done = r->Ok_0;
            let held = match before.open {
                Some(open) => open.txs,
                None => Seq::empty(),
            };
            let id = match before.open {
                Some(open) => open.batch_id,
                None => before.next_batch_id,
            };
            &&& done.ack.tx_id == before.next_tx_id
            &&& next->Ok_0.ack.tx_id == done.ack.tx_id + 1
            &&& before.open is None <==> done.opened is Some
            &&& done.opened is Some ==> done.opened->0 == id
            &&& done.sealed is Some <==> held.len() + 1 >= before.max_batch_size
            &&& done.sealed is Some <==> final(seq)@.open is None
            &&& ({
                let grown = if done.sealed is Some {
                    done.sealed->0.batch@
                } else {
                    final(seq)@.open->0
                };
                let last = grown.txs.last();
                &&& grown.batch_id == id
                &&& grown.txs.drop_last() == held
                &&& last.op == op@
                &&& last.tx_id == done.ack.tx_id
                &&& held.len() <= u32::MAX ==> last.batch_index == held.len()
                &&& last.read_set == executor::read_keys(op@)
                &&& last.write_set == executor::write_keys(op@)
                &&& before.policy is TxIdModulo ==> done.ack.result_shard as int
                    == done.ack.tx_id as int % before.shard_count as int
                &&& before.policy is StaticReadWriteSet ==> {
                    let runs = router::participants_of(
                        before.shard_count,
                        last.read_set,
                        last.write_set,
                    ).active;
                    &&& runs.contains(done.ack.result_shard)
                    &&& forall|s: ShardId| #[trigger]
                        runs.contains(s) ==> done.ack.result_shard <= s
                }
            })
        }),
{
    let before = old(seq)@;
    let current = before.current();
    let tx = sequencer::tx_for(op@, before.next_tx_id, current.txs.len() as int);
    assert(current.txs.push(tx).drop_last() =~= current.txs);
    assert(current.txs.push(tx).last() == tx);
}

/// Operations that are submitted together are refused if and only if they are too many.
/// Otherwise they are a batch of their own, in their order, with ids one after the other
/// and their places; what was open is closed before it.
pub proof fn lemma_submit_batch_call(
    seq: &mut Sequencer,
    ops: Vec<FsOp>,
    r: Result<SubmittedBatch>,
    i: int,
)
    requires
        call_requires(Sequencer::handle_submit_batch, (seq, ops)),
        call_ensures(Sequencer::handle_submit_batch, (seq, ops), r),
        old(seq)@.next_batch_id < u64::MAX,
        old(seq)@.next_tx_id + ops@.len() <= u64::MAX,
        0 <= i < ops@.len(),
    ensures
        r is Err <==> ops@.len() > old(seq)@.max_batch_size,
        r is Err ==> final(seq)@ == old(seq)@,
        r matches Ok(done) ==> {
            let before = old(seq)@;
            let sealed = done.sealed.batch@;
            let tx = sealed.txs[i];
            &&& sealed.batch_id == before.next_batch_id
            &&& sealed.txs.len() == ops@.len()
            &&& tx.op == ops@[i]@
            &&& tx.tx_id == before.next_tx_id + i
            &&& i <= u32::MAX ==> tx.batch_index == i
            &&& tx.read_set == executor::read_keys(tx.op)
            &&& tx.write_set == executor::write_keys(tx.op)
            &&& done.sealed.tx_ids@.len() == ops@.len()
            &&& done.sealed.tx_ids@[i] == tx.tx_id
            &&& done.flushed is Some <==> before.open is Some
            &&& done.flushed is Some ==> done.flushed->0.batch@ == before.open->0
            &&& final(seq)@.open is None
            &&& final(seq)@.next_tx_id == before.next_tx_id + ops@.len()
            &&& final(seq)@.next_batch_id == before.next_batch_id + 1
        },
{
}

/// The open batch is closed as it is; a batch whose time is up is closed only while it is
/// the open one.
pub proof fn lemma_seal_call(
    seq: &mut Sequencer,
    r: Option<SealedBatch>,
    other: &mut Sequencer,
    batch_id: BatchId,
    flushed: Option<SealedBatch>,
)
    requires
        call_ensures(Sequencer::seal_open_batch, (seq,), r),
        old(other)@ == old(seq)@,
        call_ensures(Sequencer::flush_open, (other, batch_id), flushed),
    ensures
        r is Some <==> old(seq)@.open is Some,
        r is Some ==> r->0.batch@ == old(seq)@.open->0,
        final(seq)@.open is None,
        final(seq)@.next_tx_id == old(seq)@.next_tx_id,
        final(seq)@.next_batch_id == old(seq)@.next_batch_id,
        flushed is Some <==> old(seq)@.open is Some && old(seq)@.open->0.batch_id == batch_id,
        flushed is Some ==> flushed->0.batch@ == old(seq)@.open->0 && final(other)@.open is None,
        flushed is None ==> final(other)@ == old(other)@,
{
}

/// A summary tells all records of all shards, by transaction and shard, and no others.
pub proof fn lemma_summary_call(
    batch_id: BatchId,
    tx_ids: Vec<TxId>,
    reports: &Vec<Vec<TxResultRecord>>,
    r: SubmitBatchSummary,
    s: int,
    record: TxResultRecord,
    i: int,
    j: int,
)
    requires
        call_ensures(batch_summary, (batch_id, tx_ids, reports), r),
    ensures
        r.batch_id == batch_id,
        r.tx_ids == tx_ids,
        0 <= s < reports@.len() && reports@[s]@.contains(record) ==> r.tx_results@.contains(record),
        r.tx_results@.contains(record) ==> exists|t: int|
            0 <= t < reports@.len() && (#[trigger] reports@[t])@.contains(record),
        0 <= i < j < r.tx_results@.len() ==> r.tx_results@[i].tx_id < r.tx_results@[j].tx_id || (
        r.tx_results@[i].tx_id == r.tx_results@[j].tx_id && r.tx_results@[i].shard_id
            <= r.tx_results@[j].shard_id),
{
    let all = sequencer::all_records(reports@);
    let own = |x: TxResultRecord| x.tx_id == record.tx_id && x.shard_id == record.shard_id;
    let a = batch::records_of(all, record.tx_id, record.shard_id);
    let b = batch::records_of(r.tx_results@, record.tx_id, record.shard_id);
    assert(a == b);
    assert(a == all.filter(own) && b == r.tx_results@.filter(own));
    if 0 <= i < j < r.tx_results@.len() {
        assert(batch::not_after(r.tx_results@[i], r.tx_results@[j]));
    }
    if 0 <= s < reports@.len() && reports@[s]@.contains(record) {
        lemma_all_records(reports@, record);
        let k = choose|k: int| 0 <= k < all.len() && all[k] == record;
        all.lemma_filter_contains(own, k);
        r.tx_results@.lemma_filter_contains_rev(own, record);
    }
    if r.tx_results@.contains(record) {
        let k = choose|k: int| 0 <= k < r.tx_results@.len() && r.tx_results@[k] == record;
        r.tx_results@.lemma_filter_contains(own, k);
        all.lemma_filter_contains_rev(own, record);
        lemma_all_records(reports@, record);
    }
}

proof fn lemma_all_records(reports: Seq<Vec<TxResultRecord>>, record: TxResultRecord)
    ensures
        sequencer::all_records(reports).contains(record) <==> exists|t: int|
            0 <= t < reports.len() && (#[trigger] reports[t])@.contains(record),
    decreases reports.len(),
{
    let all = sequencer::all_records(reports);
    if reports.len() > 0 {
        let front = reports.drop_last();
        let before = sequencer::all_records(front);
        let last = reports.last()@;
        lemma_all_records(front, record);
        if all.contains(record) {
            let k = choose|k: int| 0 <= k < all.len() && all[k] == record;
            if k < before.len() {
                assert(before[k] == record);
                let t = choose|t: int|
                    0 <= t < front.len() && (#[trigger] front[t])@.contains(record);
                assert(reports[t] == front[t]);
            } else {
                assert(last[k - before.len()] == record);
                assert(reports[reports.len() - 1]@.contains(record));
            }
        }
        if exists|t: int| 0 <= t < reports.len() && (#[trigger] reports[t])@.contains(record) {
            let t = choose|t: int| 0 <= t < reports.len() && (#[trigger] reports[t])@.contains(
                record,
            );
            if t < front.len() {
                assert(front[t] == reports[t]);
                let k = choose|k: int| 0 <= k < before.len() && before[k] == record;
                assert(all[k] == record);
            } else {
                let k = choose|k: int| 0 <= k < last.len() && last[k] == record;
                assert(all[before.len() + k] == record);
            }
        }
    }
}

/// Errors that blame the one who asked: a path, a message or a batch that is not in order,
/// and a batch that is too large; no other does.
pub proof fn lemma_blame_call(error: &Error, r: bool)
    requires
        call_ensures(Error::is_invalid_argument, (error,), r),
    ensures
        r <==> error is InvalidPath || error is InvalidProto || error is InvalidBatch
            || error is BatchTooLarge,
{
}

} // verus!
