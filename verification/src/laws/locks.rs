//! Locks given out in batch order: nobody waits forever, and the outcome is that of the
//! batch order.

use crate::engine::calvin;
use crate::executor;
use crate::laws::effects;
use crate::laws::operations;
use crate::lock;
use crate::lock::Queues;
use crate::model::{OrderedTxView, TxId};
use crate::path::Path;
use crate::serial;
use crate::scc::delta;
use crate::state;
use crate::state::State;
use vstd::prelude::*;

verus! {

/// What transactions wait for.
pub type Wants = Map<TxId, Set<Path>>;

/// Those of `ids` that want `key` and have not let go, in order.
pub open spec fn in_line(ids: Seq<TxId>, wants: Wants, gone: Set<TxId>, key: Path) -> Seq<TxId>
    decreases ids.len(),
{
    if ids.len() == 0 {
        Seq::empty()
    } else {
        let earlier = in_line(ids.drop_last(), wants, gone, key);
        let last = ids.last();
        if !gone.contains(last) && wants[last].contains(key) {
            earlier.push(last)
        } else {
            earlier
        }
    }
}

/// The queues of a batch whose transactions lined up in the order of `ids`, after those
/// in `gone` let go.
pub open spec fn queues_of(ids: Seq<TxId>, wants: Wants, gone: Set<TxId>) -> Queues {
    Map::new(
        |k: Path| in_line(ids, wants, gone, k).len() > 0,
        |k: Path| in_line(ids, wants, gone, k),
    )
}

/// Before anyone lines up there are no queues.
pub proof fn lemma_no_queues(wants: Wants, gone: Set<TxId>)
    ensures
        queues_of(Seq::empty(), wants, gone) == Map::<Path, Seq<TxId>>::empty(),
{
    assert(queues_of(Seq::empty(), wants, gone) =~= Map::<Path, Seq<TxId>>::empty());
}

/// Lining up puts a transaction behind all others.
pub proof fn lemma_lining_up(ids: Seq<TxId>, wants: Wants, gone: Set<TxId>, tx_id: TxId)
    requires
        !gone.contains(tx_id),
    ensures
        lock::lined_up(queues_of(ids, wants, gone), tx_id, wants[tx_id]) == queues_of(
            ids.push(tx_id),
            wants,
            gone,
        ),
{
    let after = queues_of(ids.push(tx_id), wants, gone);
    let lined = lock::lined_up(queues_of(ids, wants, gone), tx_id, wants[tx_id]);
    assert(ids.push(tx_id).drop_last() =~= ids);
    assert forall|k: Path| lined.contains_key(k) <==> after.contains_key(k) by {
        assert(in_line(ids.push(tx_id), wants, gone, k).len() >= 0);
    }
    assert forall|k: Path| lined.contains_key(k) implies #[trigger] lined[k] == after[k] by {
        if !queues_of(ids, wants, gone).contains_key(k) {
            assert(in_line(ids, wants, gone, k) =~= Seq::<TxId>::empty());
        }
    }
    assert(lined =~= after);
}

/// Who is in line is one of `ids`, wants the key and has not let go.
proof fn lemma_in_line_member(ids: Seq<TxId>, wants: Wants, gone: Set<TxId>, key: Path, i: int)
    requires
        0 <= i < in_line(ids, wants, gone, key).len(),
    ensures
        ids.contains(in_line(ids, wants, gone, key)[i]),
        !gone.contains(in_line(ids, wants, gone, key)[i]),
        wants[in_line(ids, wants, gone, key)[i]].contains(key),
    decreases ids.len(),
{
    let front = ids.drop_last();
    let earlier = in_line(front, wants, gone, key);
    let t = in_line(ids, wants, gone, key)[i];
    if i < earlier.len() {
        lemma_in_line_member(front, wants, gone, key, i);
        let j = choose|j: int| 0 <= j < front.len() && front[j] == t;
        assert(ids[j] == t);
    } else {
        assert(ids[ids.len() - 1] == t);
    }
}

/// The first in line is the first of `ids` that wants the key and has not let go.
proof fn lemma_first_in_line(ids: Seq<TxId>, wants: Wants, gone: Set<TxId>, key: Path, i: int)
    requires
        0 <= i < ids.len(),
        !gone.contains(ids[i]),
        wants[ids[i]].contains(key),
        forall|j: int|
            0 <= j < i ==> gone.contains(#[trigger] ids[j]) || !wants[ids[j]].contains(key),
    ensures
        in_line(ids, wants, gone, key).len() > 0,
        in_line(ids, wants, gone, key)[0] == ids[i],
    decreases ids.len(),
{
    let front = ids.drop_last();
    if i < front.len() {
        assert forall|j: int| 0 <= j < i implies gone.contains(#[trigger] front[j])
            || !wants[front[j]].contains(key) by {
            assert(front[j] == ids[j]);
        }
        lemma_first_in_line(front, wants, gone, key, i);
    } else {
        lemma_nobody_in_line(front, wants, gone, key);
    }
}

proof fn lemma_nobody_in_line(ids: Seq<TxId>, wants: Wants, gone: Set<TxId>, key: Path)
    requires
        forall|j: int|
            0 <= j < ids.len() ==> gone.contains(#[trigger] ids[j]) || !wants[ids[j]].contains(key),
    ensures
        in_line(ids, wants, gone, key) == Seq::<TxId>::empty(),
    decreases ids.len(),
{
    if ids.len() > 0 {
        let front = ids.drop_last();
        assert forall|j: int| 0 <= j < front.len() implies gone.contains(#[trigger] front[j])
            || !wants[front[j]].contains(key) by {
            assert(front[j] == ids[j]);
        }
        lemma_nobody_in_line(front, wants, gone, key);
        assert(gone.contains(ids[ids.len() - 1]) || !wants[ids[ids.len() - 1]].contains(key));
    }
}

/// Who holds a key has nobody before it in the batch that wants it too and has not let
/// go.
pub proof fn lemma_holder_is_first(
    ids: Seq<TxId>,
    wants: Wants,
    gone: Set<TxId>,
    key: Path,
    earlier: int,
    later: int,
)
    requires
        ids.no_duplicates(),
        0 <= earlier < later < ids.len(),
        lock::holds(queues_of(ids, wants, gone), ids[later], key),
        wants[ids[earlier]].contains(key),
    ensures
        gone.contains(ids[earlier]),
{
    if !gone.contains(ids[earlier]) {
        let i = lemma_least_wanting(ids, wants, gone, key, earlier);
        lemma_first_in_line(ids, wants, gone, key, i);
        assert(ids[i] != ids[later]);
    }
}

/// The least place up to `n` of one that wants the key and has not let go.
proof fn lemma_least_wanting(
    ids: Seq<TxId>,
    wants: Wants,
    gone: Set<TxId>,
    key: Path,
    n: int,
) -> (i: int)
    requires
        0 <= n < ids.len(),
        !gone.contains(ids[n]),
        wants[ids[n]].contains(key),
    ensures
        0 <= i <= n,
        !gone.contains(ids[i]),
        wants[ids[i]].contains(key),
        forall|j: int|
            0 <= j < i ==> gone.contains(#[trigger] ids[j]) || !wants[ids[j]].contains(key),
    decreases n,
{
    if forall|j: int|
        0 <= j < n ==> gone.contains(#[trigger] ids[j]) || !wants[ids[j]].contains(key) {
        n
    } else {
        let j = choose|j: int|
            0 <= j < n && !(gone.contains(#[trigger] ids[j]) || !wants[ids[j]].contains(key));
        lemma_least_wanting(ids, wants, gone, key, j)
    }
}

/// Nobody waits forever: the first of a batch that has not let go holds all it wants.
pub proof fn lemma_no_deadlock(ids: Seq<TxId>, wants: Wants, gone: Set<TxId>, i: int)
    requires
        0 <= i < ids.len(),
        !gone.contains(ids[i]),
        forall|j: int| 0 <= j < i ==> gone.contains(#[trigger] ids[j]),
    ensures
        forall|key: Path| #[trigger]
            wants[ids[i]].contains(key) ==> lock::holds(
                queues_of(ids, wants, gone),
                ids[i],
                key,
            ),
{
    assert forall|key: Path| #[trigger] wants[ids[i]].contains(key) implies lock::holds(
        queues_of(ids, wants, gone),
        ids[i],
        key,
    ) by {
        lemma_first_in_line(ids, wants, gone, key, i);
    }
}

/// Letting go takes the first out of line.
proof fn lemma_letting_go_at(
    ids: Seq<TxId>,
    wants: Wants,
    gone: Set<TxId>,
    key: Path,
    tx_id: TxId,
)
    requires
        ids.no_duplicates(),
        in_line(ids, wants, gone, key).len() > 0,
        in_line(ids, wants, gone, key)[0] == tx_id,
    ensures
        in_line(ids, wants, gone.insert(tx_id), key) == in_line(
            ids,
            wants,
            gone,
            key,
        ).drop_first(),
    decreases ids.len(),
{
    let front = ids.drop_last();
    let last = ids.last();
    let before = in_line(front, wants, gone, key);
    let n = ids.len() - 1;
    if before.len() > 0 {
        lemma_in_line_member(front, wants, gone, key, 0);
        lemma_letting_go_at(front, wants, gone, key, tx_id);
        let j = choose|j: int| 0 <= j < front.len() && front[j] == tx_id;
        assert(ids[j] == tx_id && ids[n] == last);
        assert(last != tx_id);
        assert(in_line(ids, wants, gone.insert(tx_id), key) =~= in_line(
            ids,
            wants,
            gone,
            key,
        ).drop_first());
    } else {
        assert(last == tx_id);
        assert forall|j: int| 0 <= j < front.len() implies gone.insert(tx_id).contains(
            #[trigger] front[j],
        ) || !wants[front[j]].contains(key) by {
            if !gone.contains(front[j]) && wants[front[j]].contains(key) {
                let i = lemma_least_wanting(front, wants, gone, key, j);
                lemma_first_in_line(front, wants, gone, key, i);
            }
        }
        lemma_nobody_in_line(front, wants, gone.insert(tx_id), key);
        assert(in_line(ids, wants, gone.insert(tx_id), key) =~= in_line(
            ids,
            wants,
            gone,
            key,
        ).drop_first());
    }
}

/// Who does not want a key does not matter for its queue.
proof fn lemma_other_key(
    ids: Seq<TxId>,
    wants: Wants,
    gone: Set<TxId>,
    key: Path,
    tx_id: TxId,
)
    requires
        !wants[tx_id].contains(key),
    ensures
        in_line(ids, wants, gone.insert(tx_id), key) == in_line(ids, wants, gone, key),
    decreases ids.len(),
{
    if ids.len() > 0 {
        lemma_other_key(ids.drop_last(), wants, gone, key, tx_id);
    }
}

/// Who holds all it wants and lets go leaves the queues of a batch from which it is
/// gone.
pub proof fn lemma_letting_go(ids: Seq<TxId>, wants: Wants, gone: Set<TxId>, tx_id: TxId)
    requires
        ids.no_duplicates(),
        forall|key: Path| #[trigger]
            wants[tx_id].contains(key) ==> lock::holds(queues_of(ids, wants, gone), tx_id, key),
    ensures
        lock::moved_up(queues_of(ids, wants, gone), wants[tx_id]) == queues_of(
            ids,
            wants,
            gone.insert(tx_id),
        ),
{
    let before = queues_of(ids, wants, gone);
    let moved = lock::moved_up(before, wants[tx_id]);
    let after = queues_of(ids, wants, gone.insert(tx_id));
    assert forall|k: Path| (#[trigger] moved.contains_key(k) <==> after.contains_key(k)) && (
    moved.contains_key(k) ==> moved[k] == after[k]) by {
        if wants[tx_id].contains(k) {
            assert(lock::holds(before, tx_id, k));
            lemma_letting_go_at(ids, wants, gone, k, tx_id);
        } else {
            lemma_other_key(ids, wants, gone, k, tx_id);
        }
    }
    assert(moved.dom() =~= after.dom());
    assert(moved =~= after);
}

/// Two transactions have no key in common.
pub open spec fn apart(a: OrderedTxView, b: OrderedTxView) -> bool {
    a.read_set.disjoint(b.read_set)
}

/// A transaction does not change what another reads with which it has no key in common.
pub proof fn lemma_apart_reads(s: State, a: OrderedTxView, b: OrderedTxView)
    requires
        calvin::sets_match(a),
        apart(a, b),
    ensures
        state::reads_of(serial::run_tx(s, a), b.read_set) == state::reads_of(s, b.read_set),
{
    assert forall|k: Path| #[trigger] b.read_set.contains(k) implies state::value_in(
        serial::run_tx(s, a),
        k,
    ) == state::value_in(s, k) by {
        assert(!a.read_set.contains(k));
        operations::lemma_tx_frame(s, a, k);
    }
    operations::lemma_tx_reads_decide(serial::run_tx(s, a), s, b);
}

/// Transactions with no key in common can run in either order: each does what it does in
/// the other order, and the state is the same in the end.
pub proof fn lemma_apart_commute(s: State, a: OrderedTxView, b: OrderedTxView)
    requires
        calvin::sets_match(a),
        calvin::sets_match(b),
        apart(a, b),
    ensures
        serial::run_tx(serial::run_tx(s, a), b) == serial::run_tx(serial::run_tx(s, b), a),
{
    lemma_apart_reads(s, a, b);
    assert(apart(b, a)) by {
        assert(b.read_set.disjoint(a.read_set));
    }
    lemma_apart_reads(s, b, a);
    let wa = executor::execute(a.op, state::reads_of(s, a.read_set)).writes;
    let wb = executor::execute(b.op, state::reads_of(s, b.read_set)).writes;
    let t = serial::run_tx(serial::run_tx(s, a), b);
    let u = serial::run_tx(serial::run_tx(s, b), a);
    operations::lemma_writes_within(a.op, state::reads_of(s, a.read_set));
    operations::lemma_writes_within(b.op, state::reads_of(s, b.read_set));
    assert forall|k: Path| #[trigger] effects::inode_at(t, k) == effects::inode_at(u, k) by {
        effects::lemma_read_after_writes(state::apply_writes(s, wa), wb, k);
        effects::lemma_read_after_writes(state::apply_writes(s, wb), wa, k);
        effects::lemma_read_after_writes(s, wa, k);
        effects::lemma_read_after_writes(s, wb, k);
        if a.read_set.contains(k) {
            assert(!b.read_set.contains(k));
            assert(!state::write_targets(wb).contains(k));
            lemma_untouched(wb, k, effects::inode_at(s, k));
            lemma_untouched(wb, k, delta::value_after(wa, k, effects::inode_at(s, k)));
        } else {
            assert(!state::write_targets(wa).contains(k));
            lemma_untouched(wa, k, effects::inode_at(s, k));
            lemma_untouched(wa, k, delta::value_after(wb, k, effects::inode_at(s, k)));
        }
    }
    effects::lemma_same_inodes(t, u);
}

proof fn lemma_untouched(
    writes: Seq<crate::model::WriteOpView>,
    key: Path,
    found: Option<crate::model::Inode>,
)
    requires
        !state::write_targets(writes).contains(key),
    ensures
        delta::value_after(writes, key, found) == found,
    decreases writes.len(),
{
    if writes.len() > 0 {
        let front = writes.drop_last();
        assert(writes[writes.len() - 1].target() != key);
        assert(!state::write_targets(front).contains(key)) by {
            if state::write_targets(front).contains(key) {
                let i = choose|i: int|
                    0 <= i < front.len() && (#[trigger] front[i]).target() == key;
                assert(writes[i].target() == key);
            }
        }
        lemma_untouched(front, key, found);
    }
}

/// All transactions have the key sets of their operations.
pub open spec fn all_match(txs: Seq<OrderedTxView>) -> bool {
    forall|i: int| 0 <= i < txs.len() ==> calvin::sets_match(#[trigger] txs[i])
}

/// A transaction with no key in common with those before it can run first.
proof fn lemma_to_front(s: State, txs: Seq<OrderedTxView>, p: int)
    requires
        0 <= p < txs.len(),
        all_match(txs),
        forall|q: int| 0 <= q < p ==> apart(#[trigger] txs[q], txs[p]),
    ensures
        serial::run_txs(s, txs.take(p + 1)) == serial::run_txs(
            serial::run_tx(s, txs[p]),
            txs.take(p),
        ),
    decreases p,
{
    let x = txs[p];
    let upto = txs.take(p + 1);
    assert(upto.drop_last() =~= txs.take(p));
    assert(upto.last() == x);
    if p == 0 {
        let none = txs.take(0);
        assert(none.len() == 0);
        assert(serial::run_txs(s, none) == s);
        assert(serial::run_txs(s, upto) == serial::run_tx(serial::run_txs(s, none), x));
        assert(serial::run_txs(serial::run_tx(s, x), none) == serial::run_tx(s, x));
    } else {
        let y = txs[p - 1];
        let front = txs.take(p - 1);
        let s1 = serial::run_txs(s, front);
        assert(txs.take(p).drop_last() =~= front);
        assert(txs.take(p).last() == y);
        assert(calvin::sets_match(x) && calvin::sets_match(y));
        assert(apart(y, x));
        lemma_apart_commute(s1, y, x);
        let skipped = front.push(x);
        assert(all_match(skipped)) by {
            assert forall|i: int| 0 <= i < skipped.len() implies calvin::sets_match(
                #[trigger] skipped[i],
            ) by {
                if i < p - 1 {
                    assert(skipped[i] == txs[i]);
                }
            }
        }
        assert forall|q: int| 0 <= q < p - 1 implies apart(#[trigger] skipped[q], skipped[p - 1]) by {
            assert(skipped[q] == txs[q]);
        }
        lemma_to_front(s, skipped, p - 1);
        assert(skipped.take(p) =~= skipped);
        assert(skipped.take(p - 1) =~= front);
        assert(skipped.drop_last() =~= front);
        assert(skipped[p - 1] == x);
        assert(serial::run_txs(s, skipped) == serial::run_tx(s1, x));
        assert(serial::run_txs(s, txs.take(p)) == serial::run_tx(s1, y));
        assert(serial::run_txs(s, upto) == serial::run_tx(serial::run_tx(s1, y), x));
        let t = serial::run_tx(s, x);
        assert(serial::run_txs(t, txs.take(p)) == serial::run_tx(serial::run_txs(t, front), y));
    }
}

/// `txs` in another order.
pub open spec fn in_order_of(txs: Seq<OrderedTxView>, order: Seq<int>) -> Seq<OrderedTxView> {
    order.map_values(|i: int| txs[i])
}

/// `order` names every transaction once, and where two have a key in common, in batch
/// order.
pub open spec fn respects(txs: Seq<OrderedTxView>, order: Seq<int>) -> bool {
    &&& order.len() == txs.len()
    &&& order.no_duplicates()
    &&& forall|p: int| 0 <= p < order.len() ==> 0 <= #[trigger] order[p] < txs.len()
    &&& forall|p: int, q: int|
        0 <= p < q < order.len() && order[q] < order[p] ==> apart(
            txs[#[trigger] order[p]],
            txs[#[trigger] order[q]],
        )
}

/// Every number below `n` is in a sequence of `n` different ones.
proof fn lemma_all_named(order: Seq<int>, n: nat)
    requires
        order.len() == n,
        order.no_duplicates(),
        forall|p: int| 0 <= p < order.len() ==> 0 <= #[trigger] order[p] < n,
    ensures
        forall|i: int| 0 <= i < n ==> #[trigger] order.contains(i),
{
    let all = vstd::set_lib::set_int_range(0, n as int);
    vstd::set_lib::lemma_int_range(0, n as int);
    order.unique_seq_to_set();
    assert(order.to_set().subset_of(all)) by {
        assert forall|i: int| order.to_set().contains(i) implies all.contains(i) by {
            let p = choose|p: int| 0 <= p < order.len() && order[p] == i;
            assert(0 <= order[p] < n);
        }
    }
    vstd::set_lib::lemma_subset_equality(order.to_set(), all);
    assert forall|i: int| 0 <= i < n implies #[trigger] order.contains(i) by {
        assert(all.contains(i));
        assert(order.to_set().contains(i));
    }
}

/// A place of a sequence from which place `p` was taken out, in the whole sequence.
spec fn around(p: int, a: int) -> int {
    if a < p {
        a
    } else {
        a + 1
    }
}

/// `order` without the first transaction, for a batch without it.
spec fn without_first(order: Seq<int>, p: int) -> Seq<int> {
    Seq::new((order.len() - 1) as nat, |a: int| order[around(p, a)] - 1)
}

/// An order goes on respecting a batch without its first transaction.
proof fn lemma_without_first(txs: Seq<OrderedTxView>, order: Seq<int>, p: int)
    requires
        respects(txs, order),
        0 <= p < order.len(),
        order[p] == 0,
    ensures
        respects(txs.skip(1), without_first(order, p)),
        in_order_of(txs.skip(1), without_first(order, p)) == in_order_of(txs, order).take(p)
            + in_order_of(txs, order).skip(p + 1),
{
    let rest = txs.skip(1);
    let next = without_first(order, p);
    let run = in_order_of(txs, order);
    assert forall|a: int| 0 <= a < next.len() implies 0 <= #[trigger] next[a] < rest.len()
        && rest[next[a]] == txs[order[around(p, a)]] by {
        let q = around(p, a);
        assert(order[q] != order[p]);
        assert(0 <= order[q] < txs.len());
    }
    assert forall|a: int, b: int| 0 <= a < b < next.len() implies next[a] != next[b] by {
        assert(order[around(p, a)] != order[around(p, b)]);
    }
    assert forall|a: int, b: int| 0 <= a < b < next.len() && next[b] < next[a] implies apart(
        rest[#[trigger] next[a]],
        rest[#[trigger] next[b]],
    ) by {
        let x = around(p, a);
        let y = around(p, b);
        assert(order[y] < order[x]);
        assert(apart(txs[order[x]], txs[order[y]]));
    }
    let left = run.take(p) + run.skip(p + 1);
    assert forall|a: int| 0 <= a < left.len() implies #[trigger] in_order_of(rest, next)[a]
        == left[a] by {
        assert(left[a] == run[around(p, a)]);
        assert(rest[next[a]] == txs[order[around(p, a)]]);
    }
    assert(in_order_of(rest, next) =~= left);
}

/// Whatever order transactions run in, as long as those with a key in common keep their
/// order, the outcome is that of the batch order.
pub proof fn lemma_locked_run_is_serial(s: State, txs: Seq<OrderedTxView>, order: Seq<int>)
    requires
        all_match(txs),
        respects(txs, order),
    ensures
        serial::run_txs(s, in_order_of(txs, order)) == serial::run_txs(s, txs),
    decreases txs.len(),
{
    let run = in_order_of(txs, order);
    if txs.len() == 0 {
        assert(run =~= txs);
    } else {
        lemma_all_named(order, txs.len());
        assert(order.contains(0int));
        let p = choose|p: int| 0 <= p < order.len() && order[p] == 0;
        let first = txs[0];
        let rest = txs.skip(1);
        let t = serial::run_tx(s, first);
        assert(run[p] == first);
        assert forall|i: int| 0 <= i < run.len() implies calvin::sets_match(#[trigger] run[i]) by {
            assert(0 <= order[i] < txs.len());
            assert(calvin::sets_match(txs[order[i]]));
        }
        assert forall|q: int| 0 <= q < p implies apart(#[trigger] run[q], run[p]) by {
            assert(order[q] != order[p]);
            assert(0 <= order[q]);
            assert(apart(txs[order[q]], txs[order[p]]));
        }
        lemma_to_front(s, run, p);
        assert(run =~= run.take(p + 1) + run.skip(p + 1));
        serial::lemma_run_concat(s, run.take(p + 1), run.skip(p + 1));
        serial::lemma_run_concat(t, run.take(p), run.skip(p + 1));
        lemma_without_first(txs, order, p);
        assert forall|i: int| 0 <= i < rest.len() implies calvin::sets_match(
            #[trigger] rest[i],
        ) by {
            assert(rest[i] == txs[i + 1]);
        }
        lemma_locked_run_is_serial(t, rest, without_first(order, p));
        assert(txs =~= seq![first] + rest);
        serial::lemma_run_concat(s, seq![first], rest);
        assert(serial::run_txs(s, seq![first]) == t) by {
            reveal_with_fuel(serial::run_txs, 2);
            assert(seq![first].drop_last() =~= Seq::<OrderedTxView>::empty());
        }
    }
}

} // verus!
