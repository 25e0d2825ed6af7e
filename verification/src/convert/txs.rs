//! Operations, transactions and batches as messages.

use crate::collections;
use crate::collections::{OrdSet, SortKey};
use crate::error::{Error, KeyField, ProtoFault, Result};
use crate::model;
use crate::model::{Batch, BatchView, FsOp, FsOpView, Key, OrderedTx, OrderedTxView};
use crate::path;
use crate::path::Path;
use crate::proto::pb;
use vstd::prelude::*;

verus! {

/// The operation that a message spells out.
pub open spec fn op_in(op: pb::fs_op::Op) -> FsOpView {
    match op {
        pb::fs_op::Op::Create(create) => FsOpView::Create { path: create.path@ },
        pb::fs_op::Op::Mkdir(mkdir) => FsOpView::Mkdir { path: mkdir.path@ },
        pb::fs_op::Op::Unlink(unlink) => FsOpView::Unlink { path: unlink.path@ },
        pb::fs_op::Op::Rmdir(rmdir) => FsOpView::Rmdir { path: rmdir.path@ },
        pb::fs_op::Op::Rename(rename) => FsOpView::Rename { src: rename.src@, dst: rename.dst@ },
        pb::fs_op::Op::Stat(stat) => FsOpView::Stat { path: stat.path@ },
    }
}

/// A message holds an operation on well-formed paths.
pub open spec fn op_parses(value: Option<pb::FsOp>) -> bool {
    value is Some && value->0.op is Some && op_in(value->0.op->0).valid()
}

/// The first path of an operation that is not well formed.
pub open spec fn bad_path(op: FsOpView) -> Path {
    match op {
        FsOpView::Create { path } => path,
        FsOpView::Mkdir { path } => path,
        FsOpView::Unlink { path } => path,
        FsOpView::Rmdir { path } => path,
        FsOpView::Rename { src, dst } => if path::valid_path(src) {
            dst
        } else {
            src
        },
        FsOpView::Stat { path } => path,
    }
}

/// Why a message holds no operation.
pub open spec fn op_fault(value: Option<pb::FsOp>, error: Error) -> bool {
    match error {
        Error::InvalidProto(ProtoFault::MissingFsOp) => value is None,
        Error::InvalidProto(ProtoFault::MissingFsOpKind) => value is Some && value->0.op is None,
        Error::InvalidPath(text) => {
            &&& value is Some && value->0.op is Some
            &&& !op_in(value->0.op->0).valid()
            &&& text@ == bad_path(op_in(value->0.op->0))
        },
        _ => false,
    }
}

pub fn fs_op_from_proto(value: Option<pb::FsOp>) -> (r: Result<FsOp>)
    ensures
        match r {
            Ok(op) => op_parses(value) && op@ == op_in(value->0.op->0),
            Err(error) => !op_parses(value) && op_fault(value, error),
        },
{
    match &value {
        None => Err(Error::InvalidProto(ProtoFault::MissingFsOp)),
        Some(message) => fs_op_in(message),
    }
}

/// The operation in a message.
fn fs_op_in(message: &pb::FsOp) -> (r: Result<FsOp>)
    ensures
        match r {
            Ok(op) => op_parses(Some(*message)) && op@ == op_in(message.op->0),
            Err(error) => !op_parses(Some(*message)) && op_fault(Some(*message), error),
        },
{
    let op = match &message.op {
        None => return Err(Error::InvalidProto(ProtoFault::MissingFsOpKind)),
        Some(op) => op,
    };
    match op {
        pb::fs_op::Op::Create(create) => match Key::new(create.path.clone()) {
            Ok(path) => Ok(FsOp::Create { path }),
            Err(error) => Err(error),
        },
        pb::fs_op::Op::Mkdir(mkdir) => match Key::new(mkdir.path.clone()) {
            Ok(path) => Ok(FsOp::Mkdir { path }),
            Err(error) => Err(error),
        },
        pb::fs_op::Op::Unlink(unlink) => match Key::new(unlink.path.clone()) {
            Ok(path) => Ok(FsOp::Unlink { path }),
            Err(error) => Err(error),
        },
        pb::fs_op::Op::Rmdir(rmdir) => match Key::new(rmdir.path.clone()) {
            Ok(path) => Ok(FsOp::Rmdir { path }),
            Err(error) => Err(error),
        },
        pb::fs_op::Op::Rename(rename) => {
            let src = match Key::new(rename.src.clone()) {
                Ok(path) => path,
                Err(error) => return Err(error),
            };
            match Key::new(rename.dst.clone()) {
                Ok(dst) => Ok(FsOp::Rename { src, dst }),
                Err(error) => Err(error),
            }
        },
        pb::fs_op::Op::Stat(stat) => match Key::new(stat.path.clone()) {
            Ok(path) => Ok(FsOp::Stat { path }),
            Err(error) => Err(error),
        },
    }
}

/// `message` stands for an operation.
pub open spec fn op_sent(value: FsOpView, message: pb::FsOp) -> bool {
    message.op is Some && op_in(message.op->0) == value && value.valid()
}

pub fn fs_op_to_proto(value: &FsOp) -> (r: pb::FsOp)
    ensures
        op_sent(value@, r),
{
    let op = match value {
        FsOp::Create { path } => pb::fs_op::Op::Create(pb::Create { path: path.to_text() }),
        FsOp::Mkdir { path } => pb::fs_op::Op::Mkdir(pb::Mkdir { path: path.to_text() }),
        FsOp::Unlink { path } => pb::fs_op::Op::Unlink(pb::Unlink { path: path.to_text() }),
        FsOp::Rmdir { path } => pb::fs_op::Op::Rmdir(pb::Rmdir { path: path.to_text() }),
        FsOp::Rename { src, dst } => pb::fs_op::Op::Rename(
            pb::Rename { src: src.to_text(), dst: dst.to_text() },
        ),
        FsOp::Stat { path } => pb::fs_op::Op::Stat(pb::Stat { path: path.to_text() }),
    };
    pb::FsOp { op: Some(op) }
}

/// An operation that is sent is read back unchanged.
pub proof fn lemma_fs_op_round_trip(value: FsOpView, message: pb::FsOp)
    requires
        op_sent(value, message),
    ensures
        op_parses(Some(message)),
        op_in(message.op->0) == value,
{
}

/// The texts of strings.
pub open spec fn texts(values: Seq<String>) -> Seq<Path> {
    values.map_values(|s: String| s@)
}

/// All of `values` are well-formed paths.
pub open spec fn all_valid(values: Seq<Path>) -> bool {
    forall|i: int| 0 <= i < values.len() ==> path::valid_path(#[trigger] values[i])
}

/// `values` are well-formed paths, each once.
pub open spec fn keys_parse(values: Seq<Path>) -> bool {
    all_valid(values) && values.no_duplicates()
}

/// `n` is the place of the first of `values` that cannot be taken.
pub open spec fn keys_stop(values: Seq<Path>, field: KeyField, n: int, error: Error) -> bool {
    &&& 0 <= n < values.len()
    &&& keys_parse(values.take(n))
    &&& match error {
        Error::InvalidPath(text) => !path::valid_path(values[n]) && text@ == values[n],
        Error::InvalidProto(ProtoFault::DuplicateKey { key, field: f }) => {
            &&& path::valid_path(values[n])
            &&& values.take(n).contains(values[n])
            &&& key@ == values[n] && f == field
        },
        _ => false,
    }
}

/// Why `values` are not a set of keys.
pub open spec fn keys_fault(values: Seq<Path>, field: KeyField, error: Error) -> bool {
    exists|n: int| #[trigger] keys_stop(values, field, n, error)
}

fn keys_from_proto(values: &Vec<String>, field: KeyField) -> (r: Result<OrdSet<Key>>)
    ensures
        match r {
            Ok(keys) => keys_parse(texts(values@)) && keys@ == texts(values@).to_set(),
            Err(error) => !keys_parse(texts(values@)) && keys_fault(texts(values@), field, error),
        },
{
    let ghost all = texts(values@);
    let mut out: OrdSet<Key> = OrdSet::new();
    let mut i: usize = 0;
    assert(out@ =~= all.take(0).to_set());
    while i < values.len()
        invariant
            i <= values.len(),
            all == texts(values@),
            keys_parse(all.take(i as int)),
            out@ == all.take(i as int).to_set(),
        decreases values.len() - i,
    {
        let ghost n = i as int;
        assert(all[n] == values@[n]@);
        let key = match Key::new(values[i].clone()) {
            Ok(key) => key,
            Err(error) => {
                assert(keys_stop(all, field, n, error));
                return Err(error);
            },
        };
        let copy = key.clone();
        if !out.insert(key) {
            let error = Error::InvalidProto(ProtoFault::DuplicateKey { key: copy, field });
            proof {
                assert(all.take(n).contains(all[n]));
                assert(keys_stop(all, field, n, error));
                let m = choose|m: int| 0 <= m < n && all.take(n)[m] == all[n];
                assert(all[m] == all[n]);
            }
            return Err(error);
        }
        proof {
            collections::lemma_take_to_set(all, n);
            let next = all.take(n + 1);
            assert forall|a: int, b: int| 0 <= a < b < next.len() implies next[a] != next[b] by {
                if b < n {
                    assert(all.take(n)[a] != all.take(n)[b]);
                } else {
                    assert(all.take(n).to_set().contains(all.take(n)[a]));
                }
            }
            assert forall|a: int| 0 <= a < next.len() implies path::valid_path(
                #[trigger] next[a],
            ) by {
                if a < n {
                    assert(next[a] == all.take(n)[a]);
                }
            }
        }
        i += 1;
    }
    assert(all.take(i as int) =~= all);
    Ok(out)
}

/// `message` lists a set of keys, in order.
pub open spec fn keys_sent(keys: Set<Path>, message: Seq<String>) -> bool {
    &&& keys.finite()
    &&& texts(message) == collections::sorted::<Key>(keys)
    &&& all_valid(texts(message))
}

fn keys_to_proto(keys: &OrdSet<Key>) -> (r: Vec<String>)
    ensures
        keys_sent(keys@, r@),
{
    let n = keys.len();
    let ghost order = keys.ordered();
    let mut out: Vec<String> = Vec::new();
    let mut i: usize = 0;
    while i < n
        invariant
            i <= n,
            n == order.len(),
            order == keys.ordered(),
            out.len() == i,
            forall|j: int|
                0 <= j < i ==> (#[trigger] out@[j])@ == order[j] && path::valid_path(order[j]),
        decreases n - i,
    {
        out.push(keys.at(i).to_text());
        i += 1;
    }
    assert(texts(out@) =~= order);
    out
}

/// A set of keys that is sent is read back unchanged.
pub proof fn lemma_keys_round_trip(keys: Set<Path>, message: Seq<String>)
    requires
        keys_sent(keys, message),
    ensures
        keys_parse(texts(message)),
        texts(message).to_set() == keys,
{
    collections::lemma_sorted_of_finite::<Key>(keys);
    let order = texts(message);
    assert forall|a: int, b: int| 0 <= a < b < order.len() implies order[a] != order[b] by {
        assert(<Key as SortKey>::before(order[a], order[b]));
        <Key as SortKey>::before_irreflexive(order[a]);
    }
}

/// A message holds a transaction.
pub open spec fn tx_parses(value: pb::OrderedTx) -> bool {
    keys_parse(texts(value.read_set@)) && keys_parse(texts(value.write_set@)) && op_parses(value.op)
}

/// The transaction in a message.
pub open spec fn tx_in(value: pb::OrderedTx) -> OrderedTxView {
    OrderedTxView {
        tx_id: value.tx_id,
        batch_index: value.batch_index,
        op: op_in(value.op->0.op->0),
        read_set: texts(value.read_set@).to_set(),
        write_set: texts(value.write_set@).to_set(),
    }
}

/// Why a message holds no transaction: the read set is looked at first, then the write
/// set, then the operation.
pub open spec fn tx_fault(value: pb::OrderedTx, error: Error) -> bool {
    let reads = texts(value.read_set@);
    let writes = texts(value.write_set@);
    if !keys_parse(reads) {
        keys_fault(reads, KeyField::ReadSet, error)
    } else if !keys_parse(writes) {
        keys_fault(writes, KeyField::WriteSet, error)
    } else {
        op_fault(value.op, error)
    }
}

/// The transaction in a message.
fn ordered_tx_in(value: &pb::OrderedTx) -> (r: Result<OrderedTx>)
    ensures
        match r {
            Ok(tx) => tx_parses(*value) && tx@ == tx_in(*value),
            Err(error) => !tx_parses(*value) && tx_fault(*value, error),
        },
{
    let read_set = match keys_from_proto(&value.read_set, KeyField::ReadSet) {
        Ok(keys) => keys,
        Err(error) => return Err(error),
    };
    let write_set = match keys_from_proto(&value.write_set, KeyField::WriteSet) {
        Ok(keys) => keys,
        Err(error) => return Err(error),
    };
    let op = match &value.op {
        None => return Err(Error::InvalidProto(ProtoFault::MissingFsOp)),
        Some(message) => match fs_op_in(message) {
            Ok(op) => op,
            Err(error) => return Err(error),
        },
    };
    Ok(
        OrderedTx {
            tx_id: value.tx_id,
            batch_index: value.batch_index,
            op,
            read_set,
            write_set,
        },
    )
}

pub fn ordered_tx_from_proto(value: pb::OrderedTx) -> (r: Result<OrderedTx>)
    ensures
        match r {
            Ok(tx) => tx_parses(value) && tx@ == tx_in(value),
            Err(error) => !tx_parses(value) && tx_fault(value, error),
        },
{
    ordered_tx_in(&value)
}

/// `message` stands for a transaction.
pub open spec fn tx_sent(value: OrderedTxView, message: pb::OrderedTx) -> bool {
    &&& message.tx_id == value.tx_id
    &&& message.batch_index == value.batch_index
    &&& message.op is Some && op_sent(value.op, message.op->0)
    &&& keys_sent(value.read_set, message.read_set@)
    &&& keys_sent(value.write_set, message.write_set@)
}

pub fn ordered_tx_to_proto(value: &OrderedTx) -> (r: pb::OrderedTx)
    ensures
        tx_sent(value@, r),
{
    pb::OrderedTx {
        tx_id: value.tx_id,
        batch_index: value.batch_index,
        op: Some(fs_op_to_proto(&value.op)),
        read_set: keys_to_proto(&value.read_set),
        write_set: keys_to_proto(&value.write_set),
    }
}

/// A transaction that is sent is read back unchanged.
pub proof fn lemma_tx_round_trip(value: OrderedTxView, message: pb::OrderedTx)
    requires
        tx_sent(value, message),
    ensures
        tx_parses(message),
        tx_in(message) == value,
{
    lemma_keys_round_trip(value.read_set, message.read_set@);
    lemma_keys_round_trip(value.write_set, message.write_set@);
}

/// A message holds a batch.
pub open spec fn batch_parses(value: pb::Batch) -> bool {
    forall|i: int| 0 <= i < value.txs@.len() ==> tx_parses(#[trigger] value.txs@[i])
}

/// The batch in a message.
pub open spec fn batch_in(value: pb::Batch) -> BatchView {
    BatchView {
        batch_id: value.batch_id,
        txs: value.txs@.map_values(|tx: pb::OrderedTx| tx_in(tx)),
    }
}

/// The transaction at `n` is the first that is none.
pub open spec fn batch_stop(value: pb::Batch, n: int, error: Error) -> bool {
    &&& 0 <= n < value.txs@.len()
    &&& forall|i: int| 0 <= i < n ==> tx_parses(#[trigger] value.txs@[i])
    &&& !tx_parses(value.txs@[n])
    &&& tx_fault(value.txs@[n], error)
}

pub fn batch_from_proto(value: pb::Batch) -> (r: Result<Batch>)
    ensures
        match r {
            Ok(batch) => batch_parses(value) && batch@ == batch_in(value),
            Err(error) => !batch_parses(value) && exists|n: int| #[trigger]
                batch_stop(value, n, error),
        },
{
    let mut txs: Vec<OrderedTx> = Vec::new();
    let mut i: usize = 0;
    while i < value.txs.len()
        invariant
            i <= value.txs.len(),
            txs.len() == i,
            forall|j: int| 0 <= j < i ==> tx_parses(#[trigger] value.txs@[j]),
            forall|j: int| 0 <= j < i ==> (#[trigger] txs@[j])@ == tx_in(value.txs@[j]),
        decreases value.txs.len() - i,
    {
        match ordered_tx_in(&value.txs[i]) {
            Ok(tx) => txs.push(tx),
            Err(error) => {
                assert(batch_stop(value, i as int, error));
                return Err(error);
            },
        }
        i += 1;
    }
    let batch = Batch { batch_id: value.batch_id, txs };
    assert(batch@.txs =~= batch_in(value).txs);
    Ok(batch)
}

/// `message` stands for a batch.
pub open spec fn batch_sent(value: BatchView, message: pb::Batch) -> bool {
    &&& message.batch_id == value.batch_id
    &&& message.txs@.len() == value.txs.len()
    &&& forall|i: int|
        0 <= i < value.txs.len() ==> tx_sent(value.txs[i], #[trigger] message.txs@[i])
}

pub fn batch_to_proto(value: &Batch) -> (r: pb::Batch)
    ensures
        batch_sent(value@, r),
{
    let ghost views = value@.txs;
    let mut txs: Vec<pb::OrderedTx> = Vec::new();
    let mut i: usize = 0;
    while i < value.txs.len()
        invariant
            i <= value.txs.len(),
            views == model::tx_views(value.txs@),
            txs.len() == i,
            forall|j: int| 0 <= j < i ==> tx_sent(views[j], #[trigger] txs@[j]),
        decreases value.txs.len() - i,
    {
        assert(views[i as int] == value.txs@[i as int]@);
        txs.push(ordered_tx_to_proto(&value.txs[i]));
        i += 1;
    }
    pb::Batch { batch_id: value.batch_id, txs }
}

/// A batch that is sent is read back unchanged.
pub proof fn lemma_batch_round_trip(value: BatchView, message: pb::Batch)
    requires
        batch_sent(value, message),
    ensures
        batch_parses(message),
        batch_in(message) == value,
{
    assert forall|i: int| 0 <= i < message.txs@.len() implies tx_parses(
        #[trigger] message.txs@[i],
    ) && tx_in(message.txs@[i]) == value.txs[i] by {
        lemma_tx_round_trip(value.txs[i], message.txs@[i]);
    }
    assert(batch_in(message).txs =~= value.txs);
}

} // verus!
