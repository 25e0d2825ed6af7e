//! Calls on changes, on the slots of a batch and on the graph of a batch.

use crate::collections::{OrdMap, OrdSet};
use crate::collections;
use crate::error::{BatchFault, Error, Result};
use crate::laws::effects;
use crate::model::{
    Inode, Key, NodeKind, OrderedTx, ReadValue, TxExecutionOutput, TxResult,
};
use crate::path::Path;
use crate::scc::commit::{CommitSequence, CommitSlotState, SlotView};
use crate::scc::dag::DagRuntime;
use crate::scc::delta;
use crate::scc::delta::{
    apply_delta_to_state, changed_count, filter_delta_to_keys, output_to_delta, DeltaOpView,
    TxDelta,
};
use crate::scc::plan::{SccPhase, SccTxPlan, SemanticDag};
use crate::scc::read;
use crate::scc::read::{materialized_local_read, MaterializedRead, Replay};
use crate::state;
use crate::state::State;
use vstd::prelude::*;

verus! {

/// Changes that were worked out from the reads of a state lead from it to where the writes
/// lead.
pub proof fn lemma_changes_call(
    tx: &OrderedTx,
    reads: &OrdMap<Key, ReadValue>,
    output: TxExecutionOutput,
    r: Result<TxDelta>,
    s: State,
    start: &mut OrdMap<Key, Inode>,
    applied: Result<()>,
)
    requires
        call_ensures(output_to_delta, (tx, reads, output), r),
        r is Ok,
        tx@.write_set.finite(),
        tx@.write_set.subset_of(tx@.read_set),
        reads@ == state::reads_of(s, tx@.read_set),
        old(start)@ == s,
        call_ensures(apply_delta_to_state, (start, &r->Ok_0), applied),
    ensures
        applied is Ok,
        final(start)@ == state::apply_writes(s, output@.writes),
{
    let keys = collections::sorted::<Key>(tx@.write_set);
    collections::lemma_sorted_of_finite::<Key>(tx@.write_set);
    assert forall|a: int, b: int| 0 <= a < b < keys.len() implies keys[a] != keys[b] by {
        assert(<Key as collections::SortKey>::before(keys[a], keys[b]));
        <Key as collections::SortKey>::before_irreflexive(keys[a]);
    }
    assert(state::write_targets(output@.writes).subset_of(keys.to_set())) by {
        assert forall|k: Path| state::write_targets(output@.writes).contains(k) implies
            keys.to_set().contains(k) by {
            lemma_target_is_written(output@.writes, tx@.write_set, k);
        }
    }
    effects::lemma_delta_round_trip(s, keys, tx@.read_set, output@.writes);
}

proof fn lemma_target_is_written(
    writes: Seq<crate::model::WriteOpView>,
    keys: Set<Path>,
    key: Path,
)
    requires
        delta::within(writes, keys),
        state::write_targets(writes).contains(key),
    ensures
        keys.contains(key),
{
    let i = choose|i: int| 0 <= i < writes.len() && (#[trigger] writes[i]).target() == key;
    assert(keys.contains(writes[i].target()));
}

/// Changes are worked out if and only if the transaction succeeded, every key that it may
/// write was read, it writes no other, and no count changes by more than a change can say.
pub proof fn lemma_changes_refused(
    tx: &OrderedTx,
    reads: &OrdMap<Key, ReadValue>,
    output: TxExecutionOutput,
    r: Result<TxDelta>,
)
    requires
        call_ensures(output_to_delta, (tx, reads, output), r),
        output@.result != TxResult::Success || (exists|k: Path| #[trigger]
            tx@.write_set.contains(k) && !reads@.contains_key(k)) || (exists|i: int|
            0 <= i < output@.writes.len() && !tx@.write_set.contains(
                (#[trigger] output@.writes[i]).target(),
            )),
    ensures
        r is Err,
        output@.result != TxResult::Success ==> r == Err::<TxDelta, Error>(
            Error::InvalidBatch(
                BatchFault::DeltaOfFailure { tx_id: tx@.tx_id, result: output@.result },
            ),
        ),
{
}

/// One change alone: a value is put or deleted whatever was there; a count is changed only
/// on a directory, by what is said and within what a count can be. Nothing else changes.
pub proof fn lemma_one_change_call(
    start: &mut OrdMap<Key, Inode>,
    change: &TxDelta,
    op: DeltaOpView,
    r: Result<()>,
    other: Path,
)
    requires
        call_ensures(apply_delta_to_state, (start, change), r),
        change@ == seq![op],
        other != op.target(),
    ensures
        match op {
            DeltaOpView::Put { key, value } => r is Ok && final(start)@.contains_key(key)
                && final(start)@[key] == value,
            DeltaOpView::Delete { key } => r is Ok && !final(start)@.contains_key(key),
            DeltaOpView::AddIntegerField { key, delta, .. } => {
                let s = old(start)@;
                &&& r is Ok <==> s.contains_key(key) && s[key].kind == NodeKind::Directory && 0
                    <= s[key].child_count + delta <= u64::MAX
                &&& r is Ok ==> final(start)@.contains_key(key) && final(start)@[key].kind
                    == NodeKind::Directory && final(start)@[key].child_count == s[key].child_count
                    + delta
            },
        },
        r is Err ==> final(start)@ == old(start)@,
        final(start)@.contains_key(other) <==> old(start)@.contains_key(other),
        old(start)@.contains_key(other) ==> final(start)@[other] == old(start)@[other],
{
    let s = old(start)@;
    assert(seq![op].drop_last() =~= Seq::<DeltaOpView>::empty());
    reveal_with_fuel(delta::apply_delta, 2);
    if let Err(error) = r {
        let i = choose|i: int|
            0 <= i < change@.len() && #[trigger] delta::apply_delta(s, change@.take(i)) == Some(
                final(start)@,
            ) && delta::misfit(final(start)@, change@[i], error);
        assert(change@.take(i) =~= Seq::<DeltaOpView>::empty());
    }
}

/// Changes are made one after the other: all of them at once is the first ones and then
/// the rest.
pub proof fn lemma_changes_in_turn(
    first: &mut OrdMap<Key, Inode>,
    a: &TxDelta,
    first_done: Result<()>,
    rest: &mut OrdMap<Key, Inode>,
    b: &TxDelta,
    rest_done: Result<()>,
    whole: &mut OrdMap<Key, Inode>,
    both: &TxDelta,
    whole_done: Result<()>,
)
    requires
        call_ensures(apply_delta_to_state, (first, a), first_done),
        old(rest)@ == final(first)@,
        call_ensures(apply_delta_to_state, (rest, b), rest_done),
        old(whole)@ == old(first)@,
        both@ == a@ + b@,
        call_ensures(apply_delta_to_state, (whole, both), whole_done),
    ensures
        first_done is Ok ==> (whole_done is Ok <==> rest_done is Ok),
        first_done is Ok && rest_done is Ok ==> final(whole)@ == final(rest)@,
        first_done is Err ==> whole_done is Err,
{
    effects::lemma_apply_concat(old(first)@, a@, b@);
}

/// A count is changed only on a directory that is there, and only within what a count can
/// be; each refusal says which of these it was.
pub proof fn lemma_count_call(key: &Key, found: Option<Inode>, by: i64, r: Result<Inode>)
    requires
        call_ensures(changed_count, (key, found, by), r),
    ensures
        r is Ok <==> found is Some && found->0.kind == NodeKind::Directory && 0
            <= found->0.child_count + by <= u64::MAX,
        r matches Ok(inode) ==> inode.kind == NodeKind::Directory && inode.child_count
            == found->0.child_count + by,
        found is None ==> r matches Err(Error::InvalidBatch(BatchFault::CountDeltaOnMissing { .. })),
        found matches Some(inode) ==> inode.kind == NodeKind::File ==> r matches Err(
            Error::InvalidBatch(BatchFault::CountDeltaOnFile { .. }),
        ),
{
}

/// Of the changes that are kept for some keys each is to one of them and was there before;
/// none to one of them is lost.
pub proof fn lemma_kept_changes_call(
    change: &TxDelta,
    keys: &OrdSet<Key>,
    r: TxDelta,
    op: DeltaOpView,
)
    requires
        call_ensures(filter_delta_to_keys, (change, keys), r),
    ensures
        r@.contains(op) <==> change@.contains(op) && keys@.contains(op.target()),
        (forall|i: int| 0 <= i < change@.len() ==> keys@.contains((#[trigger] change@[i]).target()))
            ==> r@ == change@,
{
    let own = |o: DeltaOpView| keys@.contains(o.target());
    if change@.contains(op) && own(op) {
        let i = choose|i: int| 0 <= i < change@.len() && change@[i] == op;
        change@.lemma_filter_contains(own, i);
    }
    if change@.filter(own).contains(op) {
        change@.lemma_filter_contains_rev(own, op);
        let i = choose|i: int| 0 <= i < change@.filter(own).len() && change@.filter(own)[i] == op;
        change@.lemma_filter_pred(own, i);
    }
    if forall|i: int| 0 <= i < change@.len() ==> keys@.contains((#[trigger] change@[i]).target()) {
        assert forall|i: int| 0 <= i < change@.len() implies own(#[trigger] change@[i]) by {
            assert(keys@.contains(change@[i].target()));
        }
        lemma_all_changes_kept(change@, own);
    }
}

proof fn lemma_all_changes_kept(ops: Seq<DeltaOpView>, own: spec_fn(DeltaOpView) -> bool)
    requires
        forall|i: int| 0 <= i < ops.len() ==> own(#[trigger] ops[i]),
    ensures
        ops.filter(own) == ops,
    decreases ops.len(),
{
    reveal(Seq::filter);
    if ops.len() > 0 {
        let front = ops.drop_last();
        assert forall|i: int| 0 <= i < front.len() implies own(#[trigger] front[i]) by {
            assert(own(ops[i]));
        }
        lemma_all_changes_kept(front, own);
        assert(own(ops[ops.len() - 1]));
        assert(front.push(ops.last()) =~= ops);
    } else {
        assert(ops.filter(own) =~= ops);
    }
}

/// A slot is set once: what it was set to is what is found there, a second time is
/// refused, and no other slot changes. A slot never goes back.
pub proof fn lemma_slot_call(
    slots: &mut CommitSequence,
    index: usize,
    state: CommitSlotState,
    r: Result<()>,
    after: CommitSequence,
    found: Result<Option<CommitSlotState>>,
    again: &mut CommitSequence,
    second: CommitSlotState,
    twice: Result<()>,
    other: int,
)
    requires
        call_ensures(CommitSequence::set_terminal_once, (slots, index, state), r),
        after@ == final(slots)@,
        call_ensures(CommitSequence::wait_terminal, (&after, index), found),
        old(again)@ == final(slots)@,
        call_ensures(CommitSequence::set_terminal_once, (again, index, second), twice),
        0 <= other < old(slots)@.len(),
        other != index,
    ensures
        r is Ok <==> state@ != SlotView::Pending && index < old(slots)@.len()
            && old(slots)@[index as int] == SlotView::Pending,
        r is Ok ==> (found matches Ok(Some(f)) && f@ == state@),
        r is Ok ==> twice is Err,
        r is Err ==> final(slots)@ == old(slots)@,
        final(slots)@.len() == old(slots)@.len(),
        final(slots)@[other] == old(slots)@[other],
{
}

/// Nothing is known of any slot of a new batch; a slot beyond the batch is refused.
pub proof fn lemma_new_slots_call(
    len: usize,
    slots: CommitSequence,
    index: usize,
    found: Result<Option<CommitSlotState>>,
    all: Vec<CommitSlotState>,
)
    requires
        call_ensures(CommitSequence::new, (len,), slots),
        call_ensures(CommitSequence::wait_terminal, (&slots, index), found),
        call_ensures(CommitSequence::terminal_snapshot, (&slots,), all),
    ensures
        index < len ==> found matches Ok(None),
        index >= len ==> found is Err,
        all@.len() == len,
        index < len ==> all@[index as int]@ == SlotView::Pending,
{
    let views = crate::scc::commit::slot_views(all@);
    assert(views.len() == all@.len());
    if index < len {
        assert(views[index as int] == all@[index as int]@);
    }
}

/// How far a read gets: to the end if and only if every slot that it must see is there and
/// is neither pending nor failed, and its changes fit; otherwise to the first that is not.
pub proof fn lemma_replay(
    s: State,
    slots: Seq<SlotView>,
    writes: Seq<Set<Path>>,
    keys: Set<Path>,
    n: int,
)
    requires
        0 <= n,
    ensures
        match read::replay(s, slots, writes, keys, n) {
            Replay::Reached(_) => n <= slots.len() && forall|i: int|
                0 <= i < n ==> (#[trigger] slots[i] is NoOp || slots[i] is Delta),
            Replay::Pending(i) => 0 <= i < n && i < slots.len() && slots[i] is Pending && forall|
                j: int,
            |
                0 <= j < i ==> (#[trigger] slots[j] is NoOp || slots[j] is Delta),
            Replay::Failed(i) => 0 <= i < n && i < slots.len() && slots[i] is Failed && forall|
                j: int,
            |
                0 <= j < i ==> (#[trigger] slots[j] is NoOp || slots[j] is Delta),
            Replay::NoSlot(i) => i == slots.len() && i < n && forall|j: int|
                0 <= j < i ==> (#[trigger] slots[j] is NoOp || slots[j] is Delta),
            Replay::NoWrites(i) => writes.len() <= i < n && i < slots.len() && slots[i] is Delta,
            Replay::Misfit(i, _) => 0 <= i < n && i < slots.len() && slots[i] is Delta,
        },
    decreases n,
{
    if n > 0 {
        lemma_replay(s, slots, writes, keys, n - 1);
    }
}

/// What a read sees of one slot more: a transaction that wrote none of its keys, or
/// nothing at all, changes nothing of it; of any other all changes to its keys are seen.
pub proof fn lemma_replay_step(
    s: State,
    slots: Seq<SlotView>,
    writes: Seq<Set<Path>>,
    keys: Set<Path>,
    n: int,
    t: State,
)
    requires
        0 <= n < slots.len(),
        n < writes.len(),
        read::replay(s, slots, writes, keys, n) == Replay::Reached(t),
    ensures
        read::replay(s, slots, writes, keys, 0) == Replay::Reached(s),
        slots[n] is NoOp ==> read::replay(s, slots, writes, keys, n + 1) == Replay::Reached(t),
        slots[n] is Failed ==> read::replay(s, slots, writes, keys, n + 1) == Replay::Failed(n),
        slots[n] is Pending ==> read::replay(s, slots, writes, keys, n + 1) == Replay::Pending(n),
        slots[n] is Delta && (forall|k: Path| #[trigger] writes[n].contains(k) ==> !keys.contains(k))
            ==> read::replay(s, slots, writes, keys, n + 1) == Replay::Reached(t),
        slots[n] is Delta && (exists|k: Path| #[trigger] writes[n].contains(k) && keys.contains(k))
            ==> match delta::apply_delta(
            t,
            slots[n]->Delta_0.filter(|op: DeltaOpView| keys.contains(op.target())),
        ) {
            Some(u) => read::replay(s, slots, writes, keys, n + 1) == Replay::Reached(u),
            None => read::replay(s, slots, writes, keys, n + 1) is Misfit,
        },
{
    if slots[n] is Delta {
        if forall|k: Path| #[trigger] writes[n].contains(k) ==> !keys.contains(k) {
            assert(writes[n].disjoint(keys));
        }
        if exists|k: Path| #[trigger] writes[n].contains(k) && keys.contains(k) {
            let k = choose|k: Path| #[trigger] writes[n].contains(k) && keys.contains(k);
            assert(!writes[n].disjoint(keys));
        }
        assert(delta::changes_within(slots[n]->Delta_0, keys) == slots[n]->Delta_0.filter(
            |op: DeltaOpView| keys.contains(op.target()),
        ));
    }
}

/// A read that must see nothing of the batch finds what was there when it began, under
/// each of its keys; it never waits and never fails but for a key that is not known.
pub proof fn lemma_read_of_base_call(
    plan: &SccTxPlan,
    phase: SccPhase,
    keys: &OrdSet<Key>,
    writes: &Vec<OrdSet<Key>>,
    base: &OrdMap<Key, ReadValue>,
    slots: &CommitSequence,
    r: Result<MaterializedRead>,
    key: Path,
)
    requires
        call_ensures(materialized_local_read, (plan, phase, keys, writes, base, slots), r),
        phase is Effect ==> plan.effect_max_pred_index is None,
        phase is Condition ==> plan.condition_max_pred_index is None,
        forall|k: Path| #[trigger] keys@.contains(k) ==> base@.contains_key(k),
    ensures
        r matches Ok(MaterializedRead::Ready(reads)) && (reads@.contains_key(key)
            <==> keys@.contains(key)) && (keys@.contains(key) ==> reads@[key] == base@[key]),
{
}

/// A read waits only for a slot that is pending and that it must see, and fails for
/// speculation only on one that failed.
pub proof fn lemma_read_waits_call(
    plan: &SccTxPlan,
    phase: SccPhase,
    keys: &OrdSet<Key>,
    writes: &Vec<OrdSet<Key>>,
    base: &OrdMap<Key, ReadValue>,
    slots: &CommitSequence,
    r: Result<MaterializedRead>,
)
    requires
        call_ensures(materialized_local_read, (plan, phase, keys, writes, base, slots), r),
    ensures
        ({
            let bound = match phase {
                SccPhase::Effect => plan.effect_max_pred_index,
                SccPhase::Condition => plan.condition_max_pred_index,
            };
            match r {
                Ok(MaterializedRead::WaitFor(i)) => {
                    &&& bound matches Some(m) && i <= m
                    &&& i < slots@.len() && slots@[i as int] is Pending
                },
                Ok(MaterializedRead::Ready(reads)) => {
                    &&& bound matches Some(m) ==> forall|i: int|
                        0 <= i <= m ==> i < slots@.len() && (#[trigger] slots@[i] is NoOp
                            || slots@[i] is Delta)
                    &&& forall|k: Path| #[trigger]
                        reads@.contains_key(k) <==> keys@.contains(k)
                },
                Err(Error::SpeculationFailed(_)) => {
                    bound matches Some(m) && exists|i: int|
                        0 <= i <= m && i < slots@.len() && #[trigger] slots@[i] is Failed
                },
                Err(_) => true,
            }
        }),
{
    let n = read::prefix_len(*plan, phase);
    let s = read::state_of(base@.restrict(keys@));
    let by_tx = read::key_sets(writes@);
    lemma_replay(s, slots@, by_tx, keys@, n);
    if let Err(Error::SpeculationFailed(fault)) = r {
        let outcome = read::replay(s, slots@, by_tx, keys@, n);
        if outcome is Failed {
            assert(slots@[outcome->Failed_0] is Failed);
        }
    }
}

/// At the start those are told to go on who wait for nobody, in their order.
pub proof fn lemma_dag_start_call(
    dag: &SemanticDag,
    fresh: DagRuntime,
    running: &mut DagRuntime,
    r: Result<Vec<usize>>,
    j: usize,
)
    requires
        dag.wf(),
        call_ensures(DagRuntime::new, (dag,), fresh),
        old(running)@ == fresh@,
        call_ensures(DagRuntime::start, (running,), r),
    ensures
        r is Ok,
        r->Ok_0@.contains(j) <==> j < dag.nodes@.len() && forall|i: int|
            0 <= i < dag.nodes@.len() ==> !(#[trigger] dag.nodes@[i]).successors@.contains(j),
        forall|a: int, b: int| 0 <= a < b < r->Ok_0@.len() ==> r->Ok_0@[a] < r->Ok_0@[b],
{
    let v = fresh@;
    let told = r->Ok_0@;
    assert(told.contains(j) == told.to_set().contains(j));
    assert forall|i: int| 0 <= i < dag.nodes@.len() implies v.successors[i]
        == (#[trigger] dag.nodes@[i]).successors@ by {
    }
    if j < v.notified.len() {
        if v.ready(j as int) {
            assert forall|i: int| 0 <= i < dag.nodes@.len() implies !(
            #[trigger] dag.nodes@[i]).successors@.contains(j) by {
                assert(v.successors[i] == dag.nodes@[i].successors@);
                if v.successors[i].contains(j as int as usize) {
                    assert(v.finished[i]);
                }
            }
        }
        if forall|i: int|
            0 <= i < dag.nodes@.len() ==> !(#[trigger] dag.nodes@[i]).successors@.contains(j) {
            assert forall|i: int|
                0 <= i < v.successors.len() && #[trigger] v.successors[i].contains(
                    j as int as usize,
                ) implies v.finished[i] by {
                assert(v.successors[i] == dag.nodes@[i].successors@);
            }
            assert(v.ready(j as int));
        }
    }
    assert forall|a: int, b: int| 0 <= a < b < told.len() implies told[a] < told[b] by {
        assert(<usize as collections::SortKey>::before(told[a], told[b]));
    }
}

/// When one is done, those are told to go on who waited for it, wait for nobody any more
/// and were not told before, in their order. Who is done already, or not there, is
/// refused.
pub proof fn lemma_dag_finish_call(
    running: &mut DagRuntime,
    index: usize,
    r: Result<Vec<usize>>,
    j: usize,
)
    requires
        call_ensures(DagRuntime::finish_vertex, (running, index), r),
        old(running)@.notified.len() == old(running)@.successors.len(),
        old(running)@.finished.len() == old(running)@.successors.len(),
    ensures
        r is Ok <==> index < old(running)@.finished.len() && !old(running)@.finished[index as int],
        r is Ok ==> {
            let v = old(running)@;
            &&& r->Ok_0@.contains(j) <==> j < v.successors.len()
                && v.successors[index as int].contains(
                j,
            ) && !v.notified[j as int] && forall|i: int|
                0 <= i < v.successors.len() && #[trigger] v.successors[i].contains(j)
                    ==> v.finished[i] || i == index
            &&& final(running)@.finished == v.finished.update(index as int, true)
            &&& final(running)@.successors == v.successors
            &&& j < v.successors.len() ==> (final(running)@.notified[j as int]
                <==> v.notified[j as int] || r->Ok_0@.contains(j))
            &&& forall|a: int, b: int| 0 <= a < b < r->Ok_0@.len() ==> r->Ok_0@[a] < r->Ok_0@[b]
        },
        r is Err ==> final(running)@ == old(running)@,
{
    if r is Ok {
        let v = old(running)@;
        let done = v.finish(index as int);
        let told = r->Ok_0@;
        assert(told.contains(j) == told.to_set().contains(j));
        if j < v.successors.len() {
            if done.ready(j as int) {
                assert forall|i: int|
                    0 <= i < v.successors.len() && #[trigger] v.successors[i].contains(
                        j,
                    ) implies v.finished[i] || i == index by {
                    assert(done.successors[i].contains(j as int as usize));
                    assert(done.finished[i]);
                }
            }
            if forall|i: int|
                0 <= i < v.successors.len() && #[trigger] v.successors[i].contains(j)
                    ==> v.finished[i] || i == index {
                assert forall|i: int|
                    0 <= i < done.successors.len() && #[trigger] done.successors[i].contains(
                        j as int as usize,
                    ) implies done.finished[i] by {
                    assert(v.successors[i].contains(j));
                }
                assert(done.ready(j as int));
            }
        }
        assert forall|a: int, b: int| 0 <= a < b < told.len() implies told[a] < told[b] by {
            assert(<usize as collections::SortKey>::before(told[a], told[b]));
        }
    }
}

} // verus!
