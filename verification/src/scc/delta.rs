//! Effects that can be merged: writes turned into changes of single fields.

use crate::collections;
use crate::collections::{OrdMap, OrdSet};
use crate::error::{BatchFault, Error, Result};
use crate::model;
use crate::model::{
    Inode, Key, NodeKind, OrderedTx, OrderedTxView, ReadValue, TxExecutionOutput, TxOutputView,
    TxResult, WriteOp, WriteOpView,
};
use crate::path::Path;
use crate::state::{Reads, State};
use vstd::prelude::*;

verus! {

/// A field of an inode that is changed by adding to it.
#[derive(Clone, Copy, Debug, PartialEq, Eq, Structural)]
pub enum InodeIntegerField {
    ChildCount,
}

/// A change to one key that can be merged with others.
#[derive(Debug, PartialEq, Eq)]
pub enum DeltaOp {
    Put { key: Key, value: Inode },
    Delete { key: Key },
    AddIntegerField { key: Key, field: InodeIntegerField, delta: i64 },
}

pub enum DeltaOpView {
    Put { key: Path, value: Inode },
    Delete { key: Path },
    AddIntegerField { key: Path, field: InodeIntegerField, delta: i64 },
}

impl View for DeltaOp {
    type V = DeltaOpView;

    open spec fn view(&self) -> DeltaOpView {
        match self {
            DeltaOp::Put { key, value } => DeltaOpView::Put { key: key@, value: *value },
            DeltaOp::Delete { key } => DeltaOpView::Delete { key: key@ },
            DeltaOp::AddIntegerField { key, field, delta } => DeltaOpView::AddIntegerField {
                key: key@,
                field: *field,
                delta: *delta,
            },
        }
    }
}

impl DeltaOpView {
    /// The key that is changed.
    pub open spec fn target(self) -> Path {
        match self {
            DeltaOpView::Put { key, .. } => key,
            DeltaOpView::Delete { key } => key,
            DeltaOpView::AddIntegerField { key, .. } => key,
        }
    }
}

impl DeltaOp {
    pub fn key(&self) -> (r: &Key)
        ensures
            r@ == self@.target(),
    {
        match self {
            DeltaOp::Put { key, .. } => key,
            DeltaOp::Delete { key } => key,
            DeltaOp::AddIntegerField { key, .. } => key,
        }
    }
}

impl Clone for DeltaOp {
    fn clone(&self) -> (r: Self)
        ensures
            r@ == self@,
    {
        match self {
            DeltaOp::Put { key, value } => DeltaOp::Put { key: key.clone(), value: *value },
            DeltaOp::Delete { key } => DeltaOp::Delete { key: key.clone() },
            DeltaOp::AddIntegerField { key, field, delta } => DeltaOp::AddIntegerField {
                key: key.clone(),
                field: *field,
                delta: *delta,
            },
        }
    }
}

/// The effect of one transaction.
#[derive(Debug, PartialEq, Eq)]
pub struct TxDelta {
    pub ops: Vec<DeltaOp>,
}

pub open spec fn delta_views(ops: Seq<DeltaOp>) -> Seq<DeltaOpView> {
    ops.map_values(|op: DeltaOp| op@)
}

impl View for TxDelta {
    type V = Seq<DeltaOpView>;

    open spec fn view(&self) -> Seq<DeltaOpView> {
        delta_views(self.ops@)
    }
}

impl Clone for TxDelta {
    fn clone(&self) -> (r: Self)
        ensures
            r@ == self@,
    {
        let mut ops: Vec<DeltaOp> = Vec::new();
        let mut i: usize = 0;
        while i < self.ops.len()
            invariant
                i <= self.ops.len(),
                ops.len() == i,
                forall|j: int| 0 <= j < i ==> (#[trigger] ops@[j])@ == self.ops@[j]@,
            decreases self.ops.len() - i,
        {
            ops.push(self.ops[i].clone());
            i += 1;
        }
        assert(delta_views(ops@) =~= self@);
        TxDelta { ops }
    }
}

/// `state` after one change; nothing where the change does not fit: a count can
/// only be changed on a directory, and must stay in range.
pub open spec fn apply_op(state: State, op: DeltaOpView) -> Option<State> {
    match op {
        DeltaOpView::Put { key, value } => Some(state.insert(key, value)),
        DeltaOpView::Delete { key } => Some(state.remove(key)),
        DeltaOpView::AddIntegerField { key, delta, .. } => {
            if state.contains_key(key) && state[key].kind == NodeKind::Directory && 0
                <= state[key].child_count + delta <= u64::MAX {
                Some(
                    state.insert(
                        key,
                        Inode {
                            kind: NodeKind::Directory,
                            child_count: (state[key].child_count + delta) as u64,
                        },
                    ),
                )
            } else {
                None
            }
        },
    }
}

/// `state` after the changes of `ops` in order; nothing where one does not fit.
pub open spec fn apply_delta(state: State, ops: Seq<DeltaOpView>) -> Option<State>
    decreases ops.len(),
{
    if ops.len() == 0 {
        Some(state)
    } else {
        match apply_delta(state, ops.drop_last()) {
            Some(s) => apply_op(s, ops.last()),
            None => None,
        }
    }
}

/// Why `op` does not fit `state`.
pub open spec fn misfit(state: State, op: DeltaOpView, error: Error) -> bool {
    &&& op matches DeltaOpView::AddIntegerField { key, .. }
    &&& match error {
        Error::InvalidBatch(BatchFault::CountDeltaOnMissing { key: k }) => {
            !state.contains_key(key) && k@ == key
        },
        Error::InvalidBatch(BatchFault::CountDeltaOnFile { key: k }) => {
            state.contains_key(key) && state[key].kind != NodeKind::Directory && k@ == key
        },
        Error::InvalidBatch(BatchFault::CountDeltaUnderflow { key: k }) => {
            state.contains_key(key) && state[key].kind == NodeKind::Directory && k@ == key
                && apply_op(state, op) is None
        },
        _ => false,
    }
}

/// `error` is the first misfit of `ops`, and `reached` is `state` after the
/// changes before it.
pub open spec fn first_misfit(
    state: State,
    ops: Seq<DeltaOpView>,
    reached: State,
    error: Error,
) -> bool {
    exists|i: int|
        0 <= i < ops.len() && #[trigger] apply_delta(state, ops.take(i)) == Some(reached) && misfit(
            reached,
            ops[i],
            error,
        )
}

fn apply_signed_delta(value: u64, delta: i64) -> (r: Option<u64>)
    ensures
        r == (if 0 <= value + delta <= u64::MAX {
            Some((value + delta) as u64)
        } else {
            None
        }),
{
    if delta >= 0 {
        value.checked_add(delta as u64)
    } else {
        let lowered: i128 = value as i128 + delta as i128;
        if lowered < 0 {
            None
        } else {
            Some(lowered as u64)
        }
    }
}

/// The inode found under `key`, if any, with its count changed: a count can only be changed
/// on a directory, and must stay in range.
pub fn changed_count(key: &Key, found: Option<Inode>, delta: i64) -> (r: Result<Inode>)
    ensures
        match r {
            Ok(inode) => {
                &&& found matches Some(dir) && dir.kind == NodeKind::Directory && 0
                    <= dir.child_count + delta <= u64::MAX
                &&& inode == (Inode {
                    kind: NodeKind::Directory,
                    child_count: (found->0.child_count + delta) as u64,
                })
            },
            Err(Error::InvalidBatch(BatchFault::CountDeltaOnMissing { key: k })) => {
                found is None && k@ == key@
            },
            Err(Error::InvalidBatch(BatchFault::CountDeltaOnFile { key: k })) => {
                &&& found matches Some(inode) && inode.kind != NodeKind::Directory
                &&& k@ == key@
            },
            Err(Error::InvalidBatch(BatchFault::CountDeltaUnderflow { key: k })) => {
                &&& found matches Some(dir) && dir.kind == NodeKind::Directory && !(0
                    <= dir.child_count + delta <= u64::MAX)
                &&& k@ == key@
            },
            Err(_) => false,
        },
{
    let inode = match found {
        Some(inode) => inode,
        None => {
            return Err(
                Error::InvalidBatch(BatchFault::CountDeltaOnMissing { key: key.clone() }),
            );
        },
    };
    if inode.kind != NodeKind::Directory {
        return Err(Error::InvalidBatch(BatchFault::CountDeltaOnFile { key: key.clone() }));
    }
    match apply_signed_delta(inode.child_count, delta) {
        Some(child_count) => Ok(Inode { kind: inode.kind, child_count }),
        None => Err(Error::InvalidBatch(BatchFault::CountDeltaUnderflow { key: key.clone() })),
    }
}

/// Makes one change.
pub(crate) fn apply_delta_op(state: &mut OrdMap<Key, Inode>, op: &DeltaOp) -> (r: Result<()>)
    ensures
        match r {
            Ok(_) => apply_op(old(state)@, op@) == Some(final(state)@),
            Err(error) => {
                &&& misfit(old(state)@, op@, error)
                &&& apply_op(old(state)@, op@) is None
                &&& final(state)@ == old(state)@
            },
        },
{
    match op {
        DeltaOp::Put { key, value } => {
            let _ = state.insert(key.clone(), *value);
            Ok(())
        },
        DeltaOp::Delete { key } => {
            let _ = state.remove(key);
            Ok(())
        },
        DeltaOp::AddIntegerField { key, field: InodeIntegerField::ChildCount, delta } => {
            let found = match state.get(key) {
                Some(inode) => Some(*inode),
                None => None,
            };
            match changed_count(key, found, *delta) {
                Ok(inode) => {
                    let _ = state.insert(key.clone(), inode);
                    Ok(())
                },
                Err(error) => Err(error),
            }
        },
    }
}

/// Makes the changes of `delta` in order, up to the first that does not fit.
pub fn apply_delta_to_state(state: &mut OrdMap<Key, Inode>, delta: &TxDelta) -> (r: Result<()>)
    ensures
        match r {
            Ok(_) => apply_delta(old(state)@, delta@) == Some(final(state)@),
            Err(error) => {
                &&& first_misfit(old(state)@, delta@, final(state)@, error)
                &&& apply_delta(old(state)@, delta@) is None
            },
        },
{
    let ghost ops = delta@;
    let mut i: usize = 0;
    while i < delta.ops.len()
        invariant
            i <= delta.ops.len(),
            ops == delta@,
            apply_delta(old(state)@, ops.take(i as int)) == Some(state@),
        decreases delta.ops.len() - i,
    {
        let ghost before_state = state@;
        proof {
            assert(ops.take(i + 1).drop_last() =~= ops.take(i as int));
            assert(ops.take(i + 1).last() == ops[i as int]);
            assert(ops[i as int] == delta.ops@[i as int]@);
        }
        match apply_delta_op(state, &delta.ops[i]) {
            Ok(_) => {},
            Err(error) => {
                proof {
                    lemma_misfit_stays(old(state)@, ops, i + 1);
                }
                return Err(error);
            },
        }
        i += 1;
    }
    assert(ops.take(i as int) =~= ops);
    Ok(())
}

/// Where a prefix does not fit, the whole does not.
pub proof fn lemma_misfit_stays(state: State, ops: Seq<DeltaOpView>, n: int)
    requires
        0 <= n <= ops.len(),
        apply_delta(state, ops.take(n)) is None,
    ensures
        apply_delta(state, ops) is None,
    decreases ops.len(),
{
    if n == ops.len() {
        assert(ops.take(n) =~= ops);
    } else {
        assert(ops.drop_last().take(n) =~= ops.take(n));
        lemma_misfit_stays(state, ops.drop_last(), n);
    }
}

/// What `writes` leave under `key`, where `found` was there before.
pub open spec fn value_after(
    writes: Seq<WriteOpView>,
    key: Path,
    found: Option<Inode>,
) -> Option<Inode>
    decreases writes.len(),
{
    if writes.len() == 0 {
        found
    } else if writes.last().target() == key {
        match writes.last() {
            WriteOpView::Put { value, .. } => Some(value),
            WriteOpView::Delete { .. } => None,
        }
    } else {
        value_after(writes.drop_last(), key, found)
    }
}

/// A recorded read as an option.
pub open spec fn found_in(reads: Reads, key: Path) -> Option<Inode> {
    match reads[key] {
        ReadValue::Present(inode) => Some(inode),
        ReadValue::Missing => None,
    }
}

/// The change of a count, where only the count of a directory changes, and it
/// does.
pub open spec fn count_change(old_value: Option<Inode>, new_value: Option<Inode>) -> Option<int> {
    match (old_value, new_value) {
        (Some(a), Some(b)) => if a.kind == NodeKind::Directory && b.kind == NodeKind::Directory
            && a.child_count != b.child_count {
            Some(b.child_count - a.child_count)
        } else {
            None
        },
        _ => None,
    }
}

/// The count changes by more than a delta can say.
pub open spec fn change_out_of_range(old_value: Option<Inode>, new_value: Option<Inode>) -> bool {
    count_change(old_value, new_value) matches Some(d) && !(i64::MIN <= d <= i64::MAX)
}

/// The change that leads from one value of a key to another, if they differ.
pub open spec fn change(key: Path, old_value: Option<Inode>, new_value: Option<Inode>) -> Seq<
    DeltaOpView,
> {
    if old_value == new_value {
        Seq::empty()
    } else {
        match count_change(old_value, new_value) {
            Some(d) => seq![
                DeltaOpView::AddIntegerField {
                    key,
                    field: InodeIntegerField::ChildCount,
                    delta: d as i64,
                },
            ],
            None => match new_value {
                Some(value) => seq![DeltaOpView::Put { key, value }],
                None => seq![DeltaOpView::Delete { key }],
            },
        }
    }
}

/// The changes of the keys of `keys`, in their order, that `writes` amount to.
pub open spec fn changes(keys: Seq<Path>, reads: Reads, writes: Seq<WriteOpView>) -> Seq<
    DeltaOpView,
>
    decreases keys.len(),
{
    if keys.len() == 0 {
        Seq::empty()
    } else {
        let key = keys.last();
        let found = found_in(reads, key);
        changes(keys.drop_last(), reads, writes) + change(
            key,
            found,
            value_after(writes, key, found),
        )
    }
}

/// Every key of `keys` has a recorded read.
pub open spec fn all_read(keys: Set<Path>, reads: Reads) -> bool {
    forall|k: Path| #[trigger] keys.contains(k) ==> reads.contains_key(k)
}

/// Every write is to a key of `keys`.
pub open spec fn within(writes: Seq<WriteOpView>, keys: Set<Path>) -> bool {
    forall|i: int| 0 <= i < writes.len() ==> keys.contains((#[trigger] writes[i]).target())
}

/// The change of the key at position `i` of `keys` is out of range.
pub open spec fn out_of_range_at(
    keys: Seq<Path>,
    reads: Reads,
    writes: Seq<WriteOpView>,
    i: int,
) -> bool {
    let found = found_in(reads, keys[i]);
    change_out_of_range(found, value_after(writes, keys[i], found))
}

/// No change is out of range.
pub open spec fn all_in_range(keys: Seq<Path>, reads: Reads, writes: Seq<WriteOpView>) -> bool {
    forall|i: int| 0 <= i < keys.len() ==> !(#[trigger] out_of_range_at(keys, reads, writes, i))
}

fn read_value_to_option(value: Option<&ReadValue>) -> (r: Result<Option<Inode>>)
    ensures
        match r {
            Ok(Some(inode)) => value == Some(&ReadValue::Present(inode)),
            Ok(None) => value == Some(&ReadValue::Missing),
            Err(Error::InvalidBatch(BatchFault::MissingDeltaRead)) => value is None,
            Err(_) => false,
        },
{
    match value {
        Some(ReadValue::Present(inode)) => Ok(Some(*inode)),
        Some(ReadValue::Missing) => Ok(None),
        None => Err(Error::InvalidBatch(BatchFault::MissingDeltaRead)),
    }
}

/// Appends the change that leads from `old_value` to `new_value`.
fn append_delta_op(
    ops: &mut Vec<DeltaOp>,
    key: Key,
    old_value: Option<Inode>,
    new_value: Option<Inode>,
) -> (r: Result<()>)
    ensures
        match r {
            Ok(_) => {
                &&& !change_out_of_range(old_value, new_value)
                &&& delta_views(final(ops)@) == delta_views(old(ops)@) + change(
                    key@,
                    old_value,
                    new_value,
                )
            },
            Err(Error::InvalidBatch(BatchFault::CountDeltaOutOfRange { key: k })) => {
                &&& change_out_of_range(old_value, new_value)
                &&& k@ == key@
            },
            Err(_) => false,
        },
{
    let ghost expected = delta_views(ops@) + change(key@, old_value, new_value);
    match (old_value, new_value) {
        (None, None) => {},
        (None, Some(value)) => {
            ops.push(DeltaOp::Put { key, value });
        },
        (Some(_), None) => {
            ops.push(DeltaOp::Delete { key });
        },
        (Some(before), Some(after)) => {
            if before == after {
            } else if before.kind == NodeKind::Directory && after.kind == NodeKind::Directory {
                let delta: i128 = after.child_count as i128 - before.child_count as i128;
                if delta < i64::MIN as i128 || delta > i64::MAX as i128 {
                    return Err(Error::InvalidBatch(BatchFault::CountDeltaOutOfRange { key }));
                }
                ops.push(
                    DeltaOp::AddIntegerField {
                        key,
                        field: InodeIntegerField::ChildCount,
                        delta: delta as i64,
                    },
                );
            } else {
                ops.push(DeltaOp::Put { key, value: after });
            }
        },
    }
    assert(delta_views(ops@) =~= expected);
    Ok(())
}

/// The first of `writes` that is not to a key of `keys`.
fn first_outside(writes: &Vec<WriteOp>, keys: &OrdSet<Key>) -> (r: Option<usize>)
    ensures
        match r {
            Some(i) => {
                &&& i < writes.len()
                &&& !keys@.contains(writes@[i as int]@.target())
                &&& within(model::write_views(writes@).take(i as int), keys@)
            },
            None => within(model::write_views(writes@), keys@),
        },
{
    let mut i: usize = 0;
    while i < writes.len()
        invariant
            i <= writes.len(),
            forall|j: int|
                0 <= j < i ==> keys@.contains(
                    (#[trigger] model::write_views(writes@)[j]).target(),
                ),
        decreases writes.len() - i,
    {
        assert(model::write_views(writes@)[i as int] == writes@[i as int]@);
        if !keys.contains(writes[i].key()) {
            return Some(i);
        }
        i += 1;
    }
    None
}

/// What `writes` leave under `key`.
fn written_value(writes: &Vec<WriteOp>, key: &Key, found: Option<Inode>) -> (r: Option<Inode>)
    ensures
        r == value_after(model::write_views(writes@), key@, found),
{
    let ghost views = model::write_views(writes@);
    let mut value = found;
    let mut i: usize = 0;
    while i < writes.len()
        invariant
            i <= writes.len(),
            views == model::write_views(writes@),
            value == value_after(views.take(i as int), key@, found),
        decreases writes.len() - i,
    {
        proof {
            assert(views.take(i + 1).drop_last() =~= views.take(i as int));
            assert(views.take(i + 1).last() == views[i as int]);
            assert(views[i as int] == writes@[i as int]@);
        }
        if writes[i].key().equals(key) {
            value = match &writes[i] {
                WriteOp::Put { value, .. } => Some(*value),
                WriteOp::Delete { .. } => None,
            };
        }
        i += 1;
    }
    assert(views.take(i as int) =~= views);
    value
}

/// The write at `i`, to `key`, is the first of `writes` that is not to a key of
/// `keys`.
pub open spec fn outside_at(
    writes: Seq<WriteOpView>,
    keys: Set<Path>,
    i: int,
    key: Path,
) -> bool {
    &&& 0 <= i < writes.len()
    &&& writes[i].target() == key
    &&& !keys.contains(key)
    &&& within(writes.take(i), keys)
}

/// The change of `key`, at `i` of `keys`, is the first that is out of range.
pub open spec fn first_out_of_range(
    keys: Seq<Path>,
    reads: Reads,
    writes: Seq<WriteOpView>,
    i: int,
    key: Path,
) -> bool {
    &&& 0 <= i < keys.len()
    &&& keys[i] == key
    &&& out_of_range_at(keys, reads, writes, i)
    &&& forall|j: int| 0 <= j < i ==> !(#[trigger] out_of_range_at(keys, reads, writes, j))
}

/// Why the writes of a transaction cannot be turned into changes: the first reason
/// there is.
pub open spec fn delta_error(
    tx: OrderedTxView,
    reads: Reads,
    output: TxOutputView,
    error: Error,
) -> bool {
    let keys = collections::sorted::<Key>(tx.write_set);
    let succeeded = output.result == TxResult::Success;
    let read = all_read(tx.write_set, reads);
    let inside = within(output.writes, tx.write_set);
    match error {
        Error::InvalidBatch(BatchFault::DeltaOfFailure { tx_id, result }) => {
            !succeeded && tx_id == tx.tx_id && result == output.result
        },
        Error::InvalidBatch(BatchFault::MissingDeltaRead) => succeeded && !read,
        Error::InvalidBatch(BatchFault::OutsideWriteSet { tx_id, key }) => {
            &&& succeeded && read && !inside
            &&& tx_id == tx.tx_id
            &&& exists|i: int| #[trigger] outside_at(output.writes, tx.write_set, i, key@)
        },
        Error::InvalidBatch(BatchFault::CountDeltaOutOfRange { key }) => {
            &&& succeeded && read && inside
            &&& exists|i: int| #[trigger] first_out_of_range(keys, reads, output.writes, i, key@)
        },
        _ => false,
    }
}

/// Turns the writes of a transaction that succeeded into changes against what it
/// read.
pub fn output_to_delta(
    tx: &OrderedTx,
    reads: &OrdMap<Key, ReadValue>,
    output: TxExecutionOutput,
) -> (r: Result<TxDelta>)
    ensures
        ({
            let keys = collections::sorted::<Key>(tx@.write_set);
            let succeeded = output@.result == TxResult::Success;
            let read = all_read(tx@.write_set, reads@);
            let inside = within(output@.writes, tx@.write_set);
            match r {
                Ok(delta) => {
                    &&& succeeded && read && inside
                    &&& all_in_range(keys, reads@, output@.writes)
                    &&& delta@ == changes(keys, reads@, output@.writes)
                },
                Err(error) => delta_error(tx@, reads@, output@, error),
            }
        }),
{
    if output.result != TxResult::Success {
        return Err(
            Error::InvalidBatch(
                BatchFault::DeltaOfFailure { tx_id: tx.tx_id, result: output.result },
            ),
        );
    }
    let n = tx.write_set.len();
    let ghost keys = tx.write_set.ordered();
    let ghost writes = output@.writes;
    let mut i: usize = 0;
    while i < n
        invariant
            i <= n,
            n == tx.write_set.ordered().len(),
            keys == tx.write_set.ordered(),
            forall|j: int| 0 <= j < i ==> reads@.contains_key(#[trigger] keys[j]),
            output.result == TxResult::Success,
        decreases n - i,
    {
        let key = tx.write_set.at(i);
        if !reads.contains_key(key) {
            return Err(Error::InvalidBatch(BatchFault::MissingDeltaRead));
        }
        i += 1;
    }
    assert(all_read(tx@.write_set, reads@));
    match first_outside(&output.writes, &tx.write_set) {
        Some(at) => {
            assert(writes[at as int] == output.writes@[at as int]@);
            let error = Error::InvalidBatch(
                BatchFault::OutsideWriteSet {
                    tx_id: tx.tx_id,
                    key: output.writes[at].key().clone(),
                },
            );
            assert(outside_at(
                writes,
                tx@.write_set,
                at as int,
                error->InvalidBatch_0->OutsideWriteSet_key@,
            ));
            return Err(error);
        },
        None => {},
    }
    let mut ops: Vec<DeltaOp> = Vec::new();
    assert(delta_views(ops@) =~= changes(keys.take(0), reads@, writes));
    let mut k: usize = 0;
    while k < n
        invariant
            k <= n,
            n == tx.write_set.ordered().len(),
            keys == tx.write_set.ordered(),
            keys == collections::sorted::<Key>(tx@.write_set),
            writes == output@.writes,
            output.result == TxResult::Success,
            all_read(tx@.write_set, reads@),
            within(writes, tx@.write_set),
            delta_views(ops@) == changes(keys.take(k as int), reads@, writes),
            forall|j: int| 0 <= j < k ==> !(#[trigger] out_of_range_at(keys, reads@, writes, j)),
        decreases n - k,
    {
        let key = tx.write_set.at(k);
        assert(tx@.write_set.contains(key@));
        let found = read_value_to_option(reads.get(key))?;
        let written = written_value(&output.writes, key, found);
        proof {
            assert(found == found_in(reads@, keys[k as int]));
            assert(keys.take(k + 1).drop_last() =~= keys.take(k as int));
            assert(keys.take(k + 1).last() == keys[k as int]);
            assert(out_of_range_at(keys, reads@, writes, k as int) == change_out_of_range(
                found,
                written,
            ));
        }
        match append_delta_op(&mut ops, key.clone(), found, written) {
            Ok(_) => {},
            Err(error) => {
                assert(first_out_of_range(
                    keys,
                    reads@,
                    writes,
                    k as int,
                    error->InvalidBatch_0->CountDeltaOutOfRange_key@,
                ));
                return Err(error);
            },
        }
        k += 1;
    }
    assert(keys.take(k as int) =~= keys);
    Ok(TxDelta { ops })
}

/// The changes of `ops` to keys of `keys`.
pub open spec fn changes_within(ops: Seq<DeltaOpView>, keys: Set<Path>) -> Seq<DeltaOpView> {
    ops.filter(|op: DeltaOpView| keys.contains(op.target()))
}

/// Keeps the changes to keys of `keys`, in order.
pub fn filter_delta_to_keys(delta: &TxDelta, keys: &OrdSet<Key>) -> (r: TxDelta)
    ensures
        r@ == changes_within(delta@, keys@),
{
    let ghost views = delta@;
    let ghost keep = |op: DeltaOpView| keys@.contains(op.target());
    let mut ops: Vec<DeltaOp> = Vec::new();
    let mut i: usize = 0;
    assert(delta_views(ops@) =~= views.take(0).filter(keep)) by {
        reveal(Seq::filter);
    }
    while i < delta.ops.len()
        invariant
            i <= delta.ops.len(),
            views == delta@,
            keep == (|op: DeltaOpView| keys@.contains(op.target())),
            delta_views(ops@) == views.take(i as int).filter(keep),
        decreases delta.ops.len() - i,
    {
        let ghost before_ops = ops@;
        if keys.contains(delta.ops[i].key()) {
            ops.push(delta.ops[i].clone());
            assert(delta_views(ops@) =~= delta_views(before_ops).push(views[i as int]));
        }
        i += 1;
        proof {
            reveal(Seq::filter);
            assert(views.take(i as int).drop_last() =~= views.take(i - 1));
            assert(views.take(i as int).last() == views[i - 1]);
        }
    }
    assert(views.take(i as int) =~= views);
    TxDelta { ops }
}

} // verus!
