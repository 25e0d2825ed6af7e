//! What every scheduler does with a batch: check its order, run a transaction on
//! gathered reads, put the results in order.

use crate::collections::{OrdMap, OrdSet};
use crate::error::{BatchFault, Error, Result};
use crate::executor;
use crate::executor::{execute_deterministic, filter_local_writes};
use crate::model;
use crate::model::{
    Batch, BatchId, BatchView, FsOp, FsOpView, Key, OrderedTx, OrderedTxView, ReadValue, ShardId,
    TxExecutionOutput, TxId, TxResult, TxResultRecord, WriteOp, WriteOpView,
};
use crate::path::Path;
use crate::router::ShardLayout;
use vstd::prelude::*;

verus! {

/// What a shard reports of a batch.
#[derive(Debug)]
pub struct BatchExecutionSummary {
    pub batch_id: BatchId,
    pub shard_id: ShardId,
    pub tx_results: Vec<TxResultRecord>,
}

/// The first `n` transactions carry their position, and no two the same id.
pub open spec fn in_order(txs: Seq<OrderedTxView>, n: int) -> bool {
    &&& forall|i: int| 0 <= i < n ==> (#[trigger] txs[i]).batch_index == i
    &&& forall|i: int, j: int|
        0 <= i < j < n ==> (#[trigger] txs[i]).tx_id != (#[trigger] txs[j]).tx_id
}

/// One of the first `n` transactions has this id.
pub open spec fn has_tx(txs: Seq<OrderedTxView>, tx_id: TxId, n: int) -> bool {
    exists|i: int| 0 <= i < n && (#[trigger] txs[i]).tx_id == tx_id
}

/// Why the order of a batch is refused: the first reason there is.
pub open spec fn order_error(batch: BatchView, error: Error) -> bool {
    match error {
        Error::InvalidBatch(BatchFault::OutOfOrder { tx_id, batch_index, expected }) => {
            &&& expected < batch.txs.len()
            &&& in_order(batch.txs, expected as int)
            &&& tx_id == batch.txs[expected as int].tx_id
            &&& batch_index == batch.txs[expected as int].batch_index
            &&& batch_index != expected
        },
        Error::InvalidBatch(BatchFault::DuplicateTx { tx_id, batch_id }) => {
            &&& batch_id == batch.batch_id
            &&& exists|n: int|
                0 <= n < batch.txs.len() && #[trigger] in_order(batch.txs, n)
                    && batch.txs[n].batch_index == n && batch.txs[n].tx_id == tx_id && has_tx(
                    batch.txs,
                    tx_id,
                    n,
                )
        },
        _ => false,
    }
}

/// Checks that the transactions carry their positions and different ids.
pub fn validate_batch_order(batch: &Batch) -> (r: Result<()>)
    ensures
        match r {
            Ok(_) => in_order(batch@.txs, batch@.txs.len() as int),
            Err(error) => order_error(batch@, error) && !in_order(
                batch@.txs,
                batch@.txs.len() as int,
            ),
        },
{
    let ghost txs = batch@.txs;
    let mut seen: OrdSet<TxId> = OrdSet::new();
    let mut index: usize = 0;
    while index < batch.txs.len()
        invariant
            index <= batch.txs.len(),
            txs == batch@.txs,
            in_order(txs, index as int),
            forall|id: TxId| #[trigger] seen@.contains(id) <==> has_tx(txs, id, index as int),
        decreases batch.txs.len() - index,
    {
        let tx = &batch.txs[index];
        assert(txs[index as int] == tx@);
        if tx.batch_index as usize != index {
            assert(txs[index as int].batch_index != index);
            return Err(
                Error::InvalidBatch(
                    BatchFault::OutOfOrder {
                        tx_id: tx.tx_id,
                        batch_index: tx.batch_index,
                        expected: index,
                    },
                ),
            );
        }
        let added = seen.insert(tx.tx_id);
        if !added {
            proof {
                assert(has_tx(txs, tx.tx_id, index as int));
                let i = choose|i: int|
                    0 <= i < index && (#[trigger] txs[i]).tx_id == tx.tx_id;
                assert(txs[i].tx_id == txs[index as int].tx_id);
            }
            return Err(
                Error::InvalidBatch(
                    BatchFault::DuplicateTx { tx_id: tx.tx_id, batch_id: batch.batch_id },
                ),
            );
        }
        proof {
            assert forall|a: int, b: int| 0 <= a < b < index + 1 implies (#[trigger] txs[a]).tx_id
                != (#[trigger] txs[b]).tx_id by {
                if b == index && txs[a].tx_id == txs[b].tx_id {
                    assert(has_tx(txs, tx.tx_id, index as int));
                }
            }
            assert forall|id: TxId| #[trigger] seen@.contains(id) <==> has_tx(
                txs,
                id,
                index + 1,
            ) by {
                if has_tx(txs, id, index as int) {
                    let i = choose|i: int| 0 <= i < index && (#[trigger] txs[i]).tx_id == id;
                    assert(txs[i].tx_id == id);
                }
                if id == tx.tx_id {
                    assert(txs[index as int].tx_id == id);
                }
            }
        }
        index += 1;
    }
    Ok(())
}

/// Whether `tx` on `reads` would count past the largest number of entries.
pub fn would_overflow(op: &FsOp, reads: &OrdMap<Key, ReadValue>) -> (r: bool)
    ensures
        r == executor::overflows(op@, reads@),
{
    let grown = match op {
        FsOp::Create { path } | FsOp::Mkdir { path } => match path.parent() {
            Ok(parent) => Some(parent),
            Err(_) => None,
        },
        FsOp::Rename { src, dst } => {
            if src.equals(dst) {
                None
            } else {
                match (src.parent(), dst.parent()) {
                    (Ok(from), Ok(to)) => if from.equals(&to) {
                        None
                    } else {
                        Some(to)
                    },
                    _ => None,
                }
            }
        },
        _ => None,
    };
    let full = match grown {
        Some(dir) => match reads.get(&dir) {
            Some(ReadValue::Present(inode)) => inode.child_count == u64::MAX,
            _ => false,
        },
        None => false,
    };
    if !full {
        proof {
            lemma_growing_dir_read(op@, reads@);
        }
        return false;
    }
    succeeds(op, reads)
}

/// The directory to which an operation that succeeds adds an entry was read.
proof fn lemma_growing_dir_read(op: FsOpView, reads: crate::state::Reads)
    ensures
        executor::execute(op, reads).result == TxResult::Success && executor::growing_dir(op)
            is Some ==> reads.contains_key(executor::growing_dir(op)->0),
{
}

/// Whether `op` succeeds on `reads`.
fn succeeds(op: &FsOp, reads: &OrdMap<Key, ReadValue>) -> (r: bool)
    requires
        executor::growing_dir(op@) is Some,
    ensures
        r == (executor::execute(op@, reads@).result == TxResult::Success),
{
    match op {
        FsOp::Create { path } | FsOp::Mkdir { path } => {
            match path.parent() {
                Ok(parent) => is_dir(reads, &parent) && is_missing(reads, path),
                Err(_) => false,
            }
        },
        FsOp::Rename { src, dst } => {
            match (src.parent(), dst.parent()) {
                (Ok(from), Ok(to)) => {
                    let movable = match reads.get(src) {
                        Some(ReadValue::Present(inode)) => inode.kind
                            != crate::model::NodeKind::Directory || inode.child_count == 0,
                        _ => false,
                    };
                    is_dir(reads, &from) && is_dir(reads, &to) && movable && is_missing(reads, dst)
                },
                _ => false,
            }
        },
        _ => false,
    }
}

fn is_dir(reads: &OrdMap<Key, ReadValue>, key: &Key) -> (r: bool)
    ensures
        r == (reads@.contains_key(key@) && reads@[key@] is Present && reads@[key@]->Present_0.kind
            == crate::model::NodeKind::Directory),
{
    match reads.get(key) {
        Some(ReadValue::Present(inode)) => inode.kind == crate::model::NodeKind::Directory,
        _ => false,
    }
}

fn is_missing(reads: &OrdMap<Key, ReadValue>, key: &Key) -> (r: bool)
    ensures
        r == (reads@.contains_key(key@) && reads@[key@] == ReadValue::Missing),
{
    match reads.get(key) {
        Some(ReadValue::Missing) => true,
        _ => false,
    }
}

/// Runs `tx` on `reads`; nothing where a count would overflow.
pub fn execute_checked(tx: &OrderedTx, reads: &OrdMap<Key, ReadValue>) -> (r: Option<
    TxExecutionOutput,
>)
    ensures
        match r {
            Some(output) => !executor::overflows(tx@.op, reads@) && output@ == executor::execute(
                tx@.op,
                reads@,
            ),
            None => executor::overflows(tx@.op, reads@),
        },
{
    if would_overflow(&tx.op, reads) {
        None
    } else {
        Some(execute_deterministic(tx, reads))
    }
}

/// What a transaction did on this shard.
#[derive(Debug)]
pub struct LocalOutcome {
    pub result: TxResult,
    pub writes: Vec<WriteOp>,
}

/// The write at `i`, to `key`, is the first of `writes` that is not to a key of
/// `keys`.
pub open spec fn first_stray(
    writes: Seq<WriteOpView>,
    keys: Set<Path>,
    i: int,
    key: Path,
) -> bool {
    &&& 0 <= i < writes.len()
    &&& writes[i].target() == key
    &&& !keys.contains(key)
    &&& forall|j: int| 0 <= j < i ==> keys.contains((#[trigger] writes[j]).target())
}

/// Every write is to a key of `keys`.
pub open spec fn none_stray(writes: Seq<WriteOpView>, keys: Set<Path>) -> bool {
    forall|i: int| 0 <= i < writes.len() ==> keys.contains((#[trigger] writes[i]).target())
}

/// Why `writes` are refused: the first that is not to a key of `keys`.
pub open spec fn stray_error(
    writes: Seq<WriteOpView>,
    keys: Set<Path>,
    tx_id: TxId,
    error: Error,
) -> bool {
    match error {
        Error::InvalidBatch(BatchFault::UnexpectedWrite { tx_id: t, key }) => {
            t == tx_id && exists|i: int| #[trigger] first_stray(writes, keys, i, key@)
        },
        _ => false,
    }
}

/// Checks that `writes` are to keys of `expected` only.
pub fn validate_local_writes(tx_id: TxId, writes: &Vec<WriteOp>, expected: &OrdSet<Key>) -> (r:
    Result<()>)
    ensures
        ({
            let views = model::write_views(writes@);
            match r {
                Ok(_) => none_stray(views, expected@),
                Err(error) => stray_error(views, expected@, tx_id, error),
            }
        }),
{
    let ghost views = model::write_views(writes@);
    let mut i: usize = 0;
    while i < writes.len()
        invariant
            i <= writes.len(),
            views == model::write_views(writes@),
            forall|j: int| 0 <= j < i ==> expected@.contains((#[trigger] views[j]).target()),
        decreases writes.len() - i,
    {
        assert(views[i as int] == writes@[i as int]@);
        let key = writes[i].key();
        if !expected.contains(key) {
            let error = Error::InvalidBatch(
                BatchFault::UnexpectedWrite { tx_id, key: key.clone() },
            );
            assert(first_stray(
                views,
                expected@,
                i as int,
                error->InvalidBatch_0->UnexpectedWrite_key@,
            ));
            return Err(error);
        }
        i += 1;
    }
    Ok(())
}

/// Runs `tx` on all its reads and keeps the writes to keys of this shard; nothing
/// where a count would overflow.
pub fn run_on_shard(
    tx: &OrderedTx,
    full_reads: &OrdMap<Key, ReadValue>,
    shard_id: ShardId,
    layout: &ShardLayout,
) -> (r: Result<Option<LocalOutcome>>)
    requires
        layout.wf(),
    ensures
        ({
            let output = executor::execute(tx@.op, full_reads@);
            let local = executor::local_writes(output.writes, shard_id, layout.shard_count);
            let keys = crate::router::local_part(layout.shard_count, tx@.write_set, shard_id);
            match r {
                Ok(Some(outcome)) => {
                    &&& !executor::overflows(tx@.op, full_reads@)
                    &&& outcome.result == output.result
                    &&& model::write_views(outcome.writes@) == local
                    &&& forall|i: int|
                        0 <= i < local.len() ==> keys.contains((#[trigger] local[i]).target())
                },
                Ok(None) => executor::overflows(tx@.op, full_reads@),
                Err(error) => {
                    &&& !executor::overflows(tx@.op, full_reads@)
                    &&& stray_error(local, keys, tx@.tx_id, error)
                },
            }
        }),
{
    let output = match execute_checked(tx, full_reads) {
        Some(output) => output,
        None => return Ok(None),
    };
    let result = output.result;
    let writes = filter_local_writes(output.writes, shard_id, layout);
    let expected = layout.local_write_keys(tx, shard_id);
    match validate_local_writes(tx.tx_id, &writes, &expected) {
        Ok(_) => Ok(Some(LocalOutcome { result, writes })),
        Err(error) => Err(error),
    }
}

/// `a` does not come after `b` by transaction and shard.
pub open spec fn not_after(a: TxResultRecord, b: TxResultRecord) -> bool {
    a.tx_id < b.tx_id || (a.tx_id == b.tx_id && a.shard_id <= b.shard_id)
}

pub open spec fn by_tx_and_shard(records: Seq<TxResultRecord>) -> bool {
    forall|i: int, j: int|
        0 <= i < j < records.len() ==> not_after(#[trigger] records[i], #[trigger] records[j])
}

/// The records of one transaction and shard, in their order.
pub open spec fn records_of(records: Seq<TxResultRecord>, tx_id: TxId, shard_id: ShardId) -> Seq<
    TxResultRecord,
> {
    records.filter(|r: TxResultRecord| r.tx_id == tx_id && r.shard_id == shard_id)
}

/// `b` is `a` put in order by transaction and shard, equal ones in their old order.
pub open spec fn sorted_from(a: Seq<TxResultRecord>, b: Seq<TxResultRecord>) -> bool {
    &&& by_tx_and_shard(b)
    &&& forall|tx_id: TxId, shard_id: ShardId| #[trigger]
        records_of(b, tx_id, shard_id) == records_of(a, tx_id, shard_id)
}

proof fn lemma_no_records(records: Seq<TxResultRecord>, tx_id: TxId, shard_id: ShardId)
    requires
        forall|i: int|
            0 <= i < records.len() ==> !((#[trigger] records[i]).tx_id == tx_id
                && records[i].shard_id == shard_id),
    ensures
        records_of(records, tx_id, shard_id) == Seq::<TxResultRecord>::empty(),
    decreases records.len(),
{
    reveal(Seq::filter);
    if records.len() > 0 {
        assert(!(records.last().tx_id == tx_id && records.last().shard_id == shard_id));
        lemma_no_records(records.drop_last(), tx_id, shard_id);
    }
}

/// Putting a record behind all that are not after it keeps the order of equals.
proof fn lemma_insert_record(out: Seq<TxResultRecord>, p: int, record: TxResultRecord)
    requires
        by_tx_and_shard(out),
        0 <= p <= out.len(),
        forall|i: int| 0 <= i < p ==> not_after(#[trigger] out[i], record),
        forall|i: int| p <= i < out.len() ==> !not_after(#[trigger] out[i], record),
    ensures
        by_tx_and_shard(out.insert(p, record)),
        forall|tx_id: TxId, shard_id: ShardId| #[trigger]
            records_of(out.insert(p, record), tx_id, shard_id) == records_of(
                out.push(record),
                tx_id,
                shard_id,
            ),
{
    let next = out.insert(p, record);
    assert forall|i: int, j: int| 0 <= i < j < next.len() implies not_after(
        #[trigger] next[i],
        #[trigger] next[j],
    ) by {
        let i1 = if i < p { i } else { i - 1 };
        let j1 = if j < p { j } else { j - 1 };
        if i != p && j != p {
            assert(not_after(out[i1], out[j1]));
        } else if i == p {
            assert(!not_after(out[j1], record));
        } else {
            assert(not_after(out[i1], record));
        }
    }
    let front = out.take(p);
    let back = out.skip(p);
    assert forall|tx_id: TxId, shard_id: ShardId| #[trigger]
        records_of(next, tx_id, shard_id) == records_of(out.push(record), tx_id, shard_id) by {
        let keep = |r: TxResultRecord| r.tx_id == tx_id && r.shard_id == shard_id;
        assert(next =~= (front + seq![record]) + back);
        assert(out =~= front + back);
        assert(out.push(record) =~= out + seq![record]);
        Seq::filter_distributes_over_add(front + seq![record], back, keep);
        Seq::filter_distributes_over_add(front, seq![record], keep);
        Seq::filter_distributes_over_add(front, back, keep);
        Seq::filter_distributes_over_add(out, seq![record], keep);
        if record.tx_id == tx_id && record.shard_id == shard_id {
            assert forall|i: int| 0 <= i < back.len() implies !((#[trigger] back[i]).tx_id == tx_id
                && back[i].shard_id == shard_id) by {
                assert(!not_after(out[p + i], record));
            }
            lemma_no_records(back, tx_id, shard_id);
            assert(back.filter(keep) =~= Seq::<TxResultRecord>::empty());
            assert(next.filter(keep) =~= out.push(record).filter(keep));
        } else {
            lemma_no_records(seq![record], tx_id, shard_id);
            assert(seq![record].filter(keep) =~= Seq::<TxResultRecord>::empty());
            assert(next.filter(keep) =~= out.push(record).filter(keep));
        }
    }
}

/// Puts `records` in order by transaction and shard.
pub fn sort_records(records: &Vec<TxResultRecord>) -> (r: Vec<TxResultRecord>)
    ensures
        sorted_from(records@, r@),
        r@.len() == records@.len(),
{
    let mut out: Vec<TxResultRecord> = Vec::new();
    let mut i: usize = 0;
    assert(records@.take(0) =~= out@);
    while i < records.len()
        invariant
            i <= records.len(),
            out.len() == i,
            sorted_from(records@.take(i as int), out@),
        decreases records.len() - i,
    {
        let record = records[i];
        let mut p: usize = out.len();
        while p > 0 && (record.tx_id < out[p - 1].tx_id || (record.tx_id == out[p - 1].tx_id
            && record.shard_id < out[p - 1].shard_id))
            invariant
                p <= out.len(),
                forall|k: int| p <= k < out.len() ==> !not_after(#[trigger] out@[k], record),
            decreases p,
        {
            p -= 1;
        }
        let ghost before_out = out@;
        proof {
            assert forall|k: int| 0 <= k < p implies not_after(#[trigger] out@[k], record) by {
                if k < p - 1 {
                    assert(not_after(out@[k], out@[p - 1]));
                }
            }
            lemma_insert_record(out@, p as int, record);
            let next = records@.take(i + 1);
            assert(next =~= records@.take(i as int) + seq![record]);
            assert(before_out.push(record) =~= before_out + seq![record]);
            assert forall|tx_id: TxId, shard_id: ShardId| #[trigger]
                records_of(before_out.insert(p as int, record), tx_id, shard_id) == records_of(
                    next,
                    tx_id,
                    shard_id,
                ) by {
                let keep = |r: TxResultRecord| r.tx_id == tx_id && r.shard_id == shard_id;
                Seq::filter_distributes_over_add(records@.take(i as int), seq![record], keep);
                Seq::filter_distributes_over_add(before_out, seq![record], keep);
                assert(records_of(before_out, tx_id, shard_id) == records_of(
                    records@.take(i as int),
                    tx_id,
                    shard_id,
                ));
            }
        }
        out.insert(p, record);
        i += 1;
    }
    assert(records@.take(i as int) =~= records@);
    out
}

} // verus!
