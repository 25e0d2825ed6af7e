//! Running ahead gives what running in order gives.

use crate::collections;
use crate::engine::calvin;
use crate::engine::reorder;
use crate::executor;
use crate::laws::effects;
use crate::laws::operations;
use crate::laws::planning;
use crate::laws::tree;
use crate::model::{FsOpView, Inode, Key, NodeKind, OrderedTxView, TxResult};
use crate::path;
use crate::path::Path;
use crate::scc::commit::SlotView;
use crate::scc::delta;
use crate::scc::plan;
use crate::scc::plan::{SccBatchPlan, SccPhase};
use crate::scc::read;
use crate::scc::tables;
use crate::serial;
use crate::state;
use crate::state::{Reads, State};
use vstd::prelude::*;

verus! {

/// The operation adds or removes an entry of a directory other than the root's own.
pub open spec fn changes_entry(op: FsOpView) -> bool {
    &&& op is Create || op is Mkdir || op is Unlink || op is Rmdir
    &&& tables::target_of(op) != path::root_path()
}

/// What `op` can tell of the two states is the same, but for how many entries the
/// directory has in which it adds or removes one.
pub open spec fn same_view(op: FsOpView, a: State, b: State) -> bool {
    forall|k: Path| #[trigger]
        executor::read_keys(op).contains(k) ==> {
            ||| state::value_in(a, k) == state::value_in(b, k)
            ||| {
                &&& changes_entry(op)
                &&& k == path::parent_of(tables::target_of(op))
                &&& a.contains_key(k) && a[k].kind == NodeKind::Directory
                &&& b.contains_key(k) && b[k].kind == NodeKind::Directory
            }
        }
}

/// The keys of a transaction in order, each once.
pub proof fn lemma_write_keys_ordered(tx: OrderedTxView)
    requires
        calvin::sets_match(tx),
    ensures
        collections::sorted::<Key>(tx.write_set).no_duplicates(),
        collections::sorted::<Key>(tx.write_set).to_set() == tx.write_set,
        tx.write_set.subset_of(tx.read_set),
{
    assert(tx.write_set.finite());
    collections::lemma_sorted_of_finite::<Key>(tx.write_set);
    collections::lemma_ascending_no_duplicates::<Key>(collections::sorted::<Key>(tx.write_set));
}

/// A transaction does not disturb what a later one that need not see it can tell.
pub proof fn lemma_undisturbed(s: State, earlier: OrderedTxView, later: FsOpView)
    requires
        calvin::sets_match(earlier),
        earlier.op.valid(),
        later.valid(),
        !tables::conflicting(earlier.op, later),
    ensures
        same_view(later, s, serial::run_tx(s, earlier)),
{
    let t = serial::run_tx(s, earlier);
    let reads = state::reads_of(s, earlier.read_set);
    let output = executor::execute(earlier.op, reads);
    let q = tables::target_of(earlier.op);
    let p = tables::target_of(later);
    if output.result != TxResult::Success || earlier.op is Stat {
        operations::lemma_refusal_writes_nothing(earlier.op, reads);
        assert(t == s);
    } else {
        assert(changes_entry(earlier.op));
        let d = path::parent_of(q);
        path::lemma_parent_valid(q);
        if p != path::root_path() {
            path::lemma_parent_valid(p);
        }
        assert forall|k: Path| #[trigger] executor::read_keys(later).contains(k) implies {
            ||| state::value_in(s, k) == state::value_in(t, k)
            ||| {
                &&& changes_entry(later)
                &&& k == path::parent_of(tables::target_of(later))
                &&& s.contains_key(k) && s[k].kind == NodeKind::Directory
                &&& t.contains_key(k) && t[k].kind == NodeKind::Directory
            }
        } by {
            if !earlier.write_set.contains(k) {
                operations::lemma_tx_frame(s, earlier, k);
            } else {
                assert(k == q || k == d);
                assert(k != p);
                assert(k == path::parent_of(p));
                assert(k == d);
                assert(earlier.read_set.contains(d));
                assert(s.contains_key(d) && s[d].kind == NodeKind::Directory);
                effects::lemma_read_after_writes(s, output.writes, d);
                let w = output.writes;
                assert(w.len() == 2);
                assert(w[0].target() == d && w[1].target() == q);
                assert(w.drop_last().last() == w[0]);
                reveal_with_fuel(delta::value_after, 3);
                assert(effects::inode_at(t, d) is Some);
            }
        }
    }
}

/// The view of an operation passes on.
proof fn lemma_view_passes_on(op: FsOpView, a: State, b: State, c: State)
    requires
        same_view(op, a, b),
        same_view(op, b, c),
    ensures
        same_view(op, a, c),
{
    assert forall|k: Path| #[trigger] executor::read_keys(op).contains(k) implies {
        ||| state::value_in(a, k) == state::value_in(c, k)
        ||| {
            &&& changes_entry(op)
            &&& k == path::parent_of(tables::target_of(op))
            &&& a.contains_key(k) && a[k].kind == NodeKind::Directory
            &&& c.contains_key(k) && c[k].kind == NodeKind::Directory
        }
    } by {
        if state::value_in(a, k) == state::value_in(b, k) {
        }
        if state::value_in(b, k) == state::value_in(c, k) {
        }
    }
}

/// The effect of a transaction, worked out on `reads`, as changes.
pub open spec fn effect_of(tx: OrderedTxView, reads: Reads) -> Seq<delta::DeltaOpView> {
    delta::changes(
        collections::sorted::<Key>(tx.write_set),
        reads,
        executor::execute(tx.op, reads).writes,
    )
}

/// The count that an operation changes, changes by one.
proof fn lemma_one_entry(tx: OrderedTxView, a: State)
    requires
        calvin::sets_match(tx),
        tx.op.valid(),
        changes_entry(tx.op),
        tree::is_tree(a),
        executor::execute(tx.op, state::reads_of(a, tx.read_set)).result == TxResult::Success,
    ensures
        ({
            let p = tables::target_of(tx.op);
            let d = path::parent_of(p);
            let writes = executor::execute(tx.op, state::reads_of(a, tx.read_set)).writes;
            let adds = tx.op is Create || tx.op is Mkdir;
            &&& p != d
            &&& a.contains_key(d) && a[d].kind == NodeKind::Directory
            &&& adds == !a.contains_key(p)
            &&& !adds ==> a[d].child_count > 0
            &&& delta::value_after(writes, d, effects::inode_at(a, d)) == Some(
                if adds {
                    executor::one_more(a[d])
                } else {
                    executor::one_less(a[d])
                },
            )
            &&& adds ==> delta::value_after(writes, p, effects::inode_at(a, p)) == Some(
                Inode {
                    kind: if tx.op is Create {
                        NodeKind::File
                    } else {
                        NodeKind::Directory
                    },
                    child_count: 0,
                },
            )
            &&& !adds ==> delta::value_after(writes, p, effects::inode_at(a, p)) is None
        }),
{
    let p = tables::target_of(tx.op);
    let d = path::parent_of(p);
    let reads = state::reads_of(a, tx.read_set);
    let writes = executor::execute(tx.op, reads).writes;
    path::lemma_parent_valid(p);
    assert(tx.read_set.contains(p) && tx.read_set.contains(d));
    if !(tx.op is Create || tx.op is Mkdir) {
        tree::lemma_counted(a, p);
    }
    assert(writes.len() == 2);
    assert(writes.drop_last().last() == writes[0]);
    assert(writes[0].target() == d && writes[1].target() == p);
    reveal_with_fuel(delta::value_after, 3);
}

/// The effect of a transaction is the same on a state of which it can tell the same: it
/// succeeds there too, and the changes worked out on the one do on the other what the
/// transaction itself does there.
pub proof fn lemma_same_effect(tx: OrderedTxView, a: State, b: State)
    requires
        calvin::sets_match(tx),
        tx.op.valid(),
        tree::is_tree(a),
        tree::is_tree(b),
        same_view(tx.op, a, b),
        executor::execute(tx.op, state::reads_of(a, tx.read_set)).result == TxResult::Success,
        !executor::overflows(tx.op, state::reads_of(a, tx.read_set)),
        !executor::overflows(tx.op, state::reads_of(b, tx.read_set)),
    ensures
        executor::execute(tx.op, state::reads_of(b, tx.read_set)).result == TxResult::Success,
        delta::apply_delta(b, effect_of(tx, state::reads_of(a, tx.read_set))) == Some(
            serial::run_tx(b, tx),
        ),
{
    let reads_a = state::reads_of(a, tx.read_set);
    let reads_b = state::reads_of(b, tx.read_set);
    let writes_a = executor::execute(tx.op, reads_a).writes;
    let keys = collections::sorted::<Key>(tx.write_set);
    lemma_write_keys_ordered(tx);
    planning::lemma_effect_never_refused(tx, a);
    if forall|k: Path| #[trigger]
        tx.read_set.contains(k) ==> state::value_in(a, k) == state::value_in(b, k) {
        operations::lemma_tx_reads_decide(a, b, tx);
        operations::lemma_writes_within(tx.op, reads_b);
        effects::lemma_delta_round_trip(b, keys, tx.read_set, writes_a);
    } else {
        let p = tables::target_of(tx.op);
        let d = path::parent_of(p);
        assert(changes_entry(tx.op));
        path::lemma_parent_valid(p);
        assert(tx.read_set.contains(p) && tx.read_set.contains(d));
        assert(state::value_in(a, p) == state::value_in(b, p));
        assert(b.contains_key(d) && b[d].kind == NodeKind::Directory);
        lemma_one_entry(tx, a);
        assert(executor::execute(tx.op, reads_b).result == TxResult::Success);
        lemma_one_entry(tx, b);
        let writes_b = executor::execute(tx.op, reads_b).writes;
        assert(effects::inode_at(a, p) == effects::inode_at(b, p));
        effects::lemma_found(a, tx.read_set, p);
        effects::lemma_found(a, tx.read_set, d);
        assert forall|i: int| 0 <= i < keys.len() implies effects::stepped_all(
            effects::inode_at(b, #[trigger] keys[i]),
            effects::change_at(keys[i], reads_a, writes_a),
        ) == Some(delta::value_after(writes_b, keys[i], effects::inode_at(b, keys[i]))) by {
            assert(keys.to_set().contains(keys[i]));
            assert(tx.write_set.contains(keys[i]));
            assert(keys[i] == p || keys[i] == d);
            if keys[i] == p {
                effects::lemma_change_leads(
                    p,
                    effects::inode_at(a, p),
                    delta::value_after(writes_a, p, effects::inode_at(a, p)),
                );
            } else {
                let grown = tx.op is Create || tx.op is Mkdir;
                assert(grown ==> a[d].child_count < u64::MAX && b[d].child_count < u64::MAX);
                assert(effects::change_at(d, reads_a, writes_a) == seq![
                    delta::DeltaOpView::AddIntegerField {
                        key: d,
                        field: delta::InodeIntegerField::ChildCount,
                        delta: if grown {
                            1
                        } else {
                            -1i64
                        },
                    },
                ]);
            }
        }
        let t = effects::lemma_apply_changes(b, keys, reads_a, writes_a);
        let u = serial::run_tx(b, tx);
        operations::lemma_writes_within(tx.op, reads_b);
        assert forall|k: Path| #[trigger] effects::inode_at(t, k) == effects::inode_at(u, k) by {
            effects::lemma_read_after_writes(b, writes_b, k);
            if keys.contains(k) {
                let i = choose|i: int| 0 <= i < keys.len() && keys[i] == k;
                assert(keys[i] == k);
            } else {
                assert(!keys.to_set().contains(k));
                state::lemma_writes_frame(b, writes_b, k);
            }
        }
        effects::lemma_same_inodes(t, u);
    }
}

/// The first `n` transactions of a batch without those that failed.
pub open spec fn kept(txs: Seq<OrderedTxView>, failed: Set<usize>, n: int) -> Seq<OrderedTxView>
    decreases n,
{
    if n <= 0 {
        Seq::empty()
    } else if failed.contains((n - 1) as usize) {
        kept(txs, failed, n - 1)
    } else {
        kept(txs, failed, n - 1).push(txs[n - 1])
    }
}

/// The slot of a transaction that succeeded on `reads`.
pub open spec fn slot_for(tx: OrderedTxView, reads: Reads) -> SlotView {
    let effect = effect_of(tx, reads);
    if effect.len() == 0 {
        SlotView::NoOp
    } else {
        SlotView::Delta(effect)
    }
}

/// Transaction `j` ran on what it must see, succeeded, and left its effect in its slot.
pub open spec fn ran_ahead(
    s: State,
    txs: Seq<OrderedTxView>,
    plan: SccBatchPlan,
    slots: Seq<SlotView>,
    failed: Set<usize>,
    j: int,
) -> bool {
    match reorder::installed(s, slots, failed, read::prefix_len(plan.tx_plans[j], SccPhase::Effect)) {
        None => false,
        Some(seen) => {
            let reads = state::reads_of(seen, txs[j].read_set);
            let output = executor::execute(txs[j].op, reads);
            &&& output.result == TxResult::Success
            &&& !executor::overflows(txs[j].op, reads)
            &&& slots[j] == slot_for(txs[j], reads)
        },
    }
}

/// Every transaction of a batch that did not fail ran ahead as planned.
pub open spec fn speculated(
    s: State,
    txs: Seq<OrderedTxView>,
    plan: SccBatchPlan,
    slots: Seq<SlotView>,
    failed: Set<usize>,
) -> bool {
    &&& slots.len() == txs.len()
    &&& txs.len() <= usize::MAX
    &&& plan::plans(plan, txs)
    &&& forall|j: int|
        0 <= j < txs.len() && !failed.contains(j as usize) ==> #[trigger] ran_ahead(
            s,
            txs,
            plan,
            slots,
            failed,
            j,
        )
}

/// What did not fail is orderly, and names its key sets.
pub open spec fn orderly_kept(txs: Seq<OrderedTxView>, failed: Set<usize>) -> bool {
    forall|j: int|
        0 <= j < txs.len() && !failed.contains(j as usize) ==> tree::orderly(#[trigger] txs[j])
            && calvin::sets_match(txs[j])
}

proof fn lemma_kept_prefix(txs: Seq<OrderedTxView>, failed: Set<usize>, m: int, n: int)
    requires
        0 <= m <= n,
    ensures
        kept(txs, failed, m).len() <= kept(txs, failed, n).len(),
        kept(txs, failed, n).take(kept(txs, failed, m).len() as int) == kept(txs, failed, m),
    decreases n - m,
{
    if m == n {
        assert(kept(txs, failed, n).take(kept(txs, failed, n).len() as int) =~= kept(
            txs,
            failed,
            n,
        ));
    } else {
        lemma_kept_prefix(txs, failed, m, n - 1);
        let len = kept(txs, failed, m).len() as int;
        assert(kept(txs, failed, n).take(len) =~= kept(txs, failed, n - 1).take(len));
    }
}

/// Where all that is kept fits, the next that is kept does not overflow.
proof fn lemma_kept_fits(s: State, txs: Seq<OrderedTxView>, failed: Set<usize>, k: int, n: int)
    requires
        0 <= k < n,
        !failed.contains(k as usize),
        serial::fits(s, kept(txs, failed, n)),
    ensures
        !executor::overflows(
            txs[k].op,
            state::reads_of(serial::run_txs(s, kept(txs, failed, k)), txs[k].read_set),
        ),
{
    lemma_kept_prefix(txs, failed, k, n);
    lemma_kept_prefix(txs, failed, k + 1, n);
    let all = kept(txs, failed, n);
    let i = kept(txs, failed, k).len() as int;
    assert(kept(txs, failed, k + 1)[i] == txs[k]);
    assert(all.take(i + 1)[i] == txs[k]);
    assert(all[i] == txs[k]);
    assert(all.take(i) == kept(txs, failed, k));
}

/// From what a transaction must see to its place, nothing changes that it can tell.
proof fn lemma_view_kept(
    s: State,
    txs: Seq<OrderedTxView>,
    failed: Set<usize>,
    j: int,
    m: int,
    n: int,
)
    requires
        0 <= m <= n <= j < txs.len(),
        !failed.contains(j as usize),
        orderly_kept(txs, failed),
        forall|k: int| m <= k < j ==> !(#[trigger] plan::depends(txs, k, j)),
    ensures
        same_view(
            txs[j].op,
            serial::run_txs(s, kept(txs, failed, m)),
            serial::run_txs(s, kept(txs, failed, n)),
        ),
    decreases n - m,
{
    if m < n {
        lemma_view_kept(s, txs, failed, j, m, n - 1);
        let k = n - 1;
        let before = serial::run_txs(s, kept(txs, failed, k));
        if !failed.contains(k as usize) {
            assert(!plan::depends(txs, k, j));
            assert(tree::orderly(txs[k]) && tree::orderly(txs[j]));
            lemma_undisturbed(before, txs[k], txs[j].op);
            let next = kept(txs, failed, k).push(txs[k]);
            assert(next.drop_last() =~= kept(txs, failed, k));
            assert(serial::run_txs(s, next) == serial::run_tx(before, txs[k]));
            lemma_view_passes_on(
                txs[j].op,
                serial::run_txs(s, kept(txs, failed, m)),
                before,
                serial::run_tx(before, txs[k]),
            );
        }
    }
}

/// Up to any place of a batch, installing what ran ahead is running it in order.
proof fn lemma_prefix_serial(
    s: State,
    txs: Seq<OrderedTxView>,
    plan: SccBatchPlan,
    slots: Seq<SlotView>,
    failed: Set<usize>,
    n: int,
)
    requires
        0 <= n <= txs.len(),
        tree::is_tree(s),
        orderly_kept(txs, failed),
        speculated(s, txs, plan, slots, failed),
        serial::fits(s, kept(txs, failed, txs.len() as int)),
    ensures
        reorder::installed(s, slots, failed, n) == Some(
            serial::run_txs(s, kept(txs, failed, n)),
        ),
        tree::is_tree(serial::run_txs(s, kept(txs, failed, n))),
        forall|j: int|
            0 <= j < n && !failed.contains(j as usize) ==> (#[trigger] executor::execute(
                txs[j].op,
                state::reads_of(serial::run_txs(s, kept(txs, failed, j)), txs[j].read_set),
            )).result == TxResult::Success,
    decreases n,
{
    if n > 0 {
        let j = n - 1;
        lemma_prefix_serial(s, txs, plan, slots, failed, j);
        if !failed.contains(j as usize) {
            let m = read::prefix_len(plan.tx_plans[j], SccPhase::Effect);
            assert(plan::last_before(txs, j, j, plan.tx_plans[j].effect_max_pred_index));
            assert(0 <= m <= j);
            lemma_prefix_serial(s, txs, plan, slots, failed, m);
            let seen = serial::run_txs(s, kept(txs, failed, m));
            let here = serial::run_txs(s, kept(txs, failed, j));
            assert(ran_ahead(s, txs, plan, slots, failed, j));
            assert forall|k: int| m <= k < j implies !(#[trigger] plan::depends(txs, k, j)) by {}
            lemma_view_kept(s, txs, failed, j, m, j);
            lemma_kept_fits(s, txs, failed, j, txs.len() as int);
            assert(tree::orderly(txs[j]));
            lemma_same_effect(txs[j], seen, here);
            tree::lemma_tx_keeps_tree(here, txs[j]);
            let next = kept(txs, failed, j).push(txs[j]);
            assert(next.drop_last() =~= kept(txs, failed, j));
            assert(serial::run_txs(s, next) == serial::run_tx(here, txs[j]));
        }
    }
}

/// Running ahead gives what running in order gives: installing the effects of the
/// transactions that did not fail leads to the state to which these transactions lead
/// one after the other, and each of them succeeds there too.
pub proof fn lemma_speculation_is_serial(
    s: State,
    txs: Seq<OrderedTxView>,
    plan: SccBatchPlan,
    slots: Seq<SlotView>,
    failed: Set<usize>,
)
    requires
        tree::is_tree(s),
        orderly_kept(txs, failed),
        speculated(s, txs, plan, slots, failed),
        serial::fits(s, kept(txs, failed, txs.len() as int)),
    ensures
        reorder::installed(s, slots, failed, txs.len() as int) == Some(
            serial::run_txs(s, kept(txs, failed, txs.len() as int)),
        ),
        forall|j: int|
            0 <= j < txs.len() && !failed.contains(j as usize) ==> (#[trigger] executor::execute(
                txs[j].op,
                state::reads_of(serial::run_txs(s, kept(txs, failed, j)), txs[j].read_set),
            )).result == TxResult::Success,
{
    lemma_prefix_serial(s, txs, plan, slots, failed, txs.len() as int);
}

/// What a transaction sees when its success is confirmed, it saw before: no plan asks
/// for a second look.
pub proof fn lemma_effect_covers_condition(
    txs: Seq<OrderedTxView>,
    plan: SccBatchPlan,
    j: int,
)
    requires
        plan::plans(plan, txs),
        0 <= j < txs.len(),
    ensures
        plan.tx_plans[j].effect_max_pred_index == plan.tx_plans[j].condition_max_pred_index,
{
    let a = plan.tx_plans[j].effect_max_pred_index;
    let b = plan.tx_plans[j].condition_max_pred_index;
    assert(plan::last_before(txs, j, j, a) && plan::last_before(txs, j, j, b));
    match (a, b) {
        (Some(m), Some(n)) => {
            assert(plan::depends(txs, m as int, j) && plan::depends(txs, n as int, j));
        },
        (Some(m), None) => {
            assert(plan::depends(txs, m as int, j));
        },
        (None, Some(n)) => {
            assert(plan::depends(txs, n as int, j));
        },
        (None, None) => {},
    }
}

} // verus!
