//! Running transactions one after the other: what every scheduler is held to.

use crate::executor;
use crate::model::{BatchView, OrderedTxView};
use crate::state;
use crate::state::State;
use vstd::prelude::*;

verus! {

/// `state` after `tx` ran on it.
pub open spec fn run_tx(state: State, tx: OrderedTxView) -> State {
    state::apply_writes(
        state,
        executor::execute(tx.op, state::reads_of(state, tx.read_set)).writes,
    )
}

/// `state` after `txs` ran on it, in order.
pub open spec fn run_txs(state: State, txs: Seq<OrderedTxView>) -> State
    decreases txs.len(),
{
    if txs.len() == 0 {
        state
    } else {
        run_tx(run_txs(state, txs.drop_last()), txs.last())
    }
}

/// No count of entries passes the largest number there is while `txs` run.
pub open spec fn fits(state: State, txs: Seq<OrderedTxView>) -> bool {
    forall|i: int|
        0 <= i < txs.len() ==> !executor::overflows(
            (#[trigger] txs[i]).op,
            state::reads_of(run_txs(state, txs.take(i)), txs[i].read_set),
        )
}

/// The transactions of `batches`, in order.
pub open spec fn all_txs(batches: Seq<BatchView>) -> Seq<OrderedTxView>
    decreases batches.len(),
{
    if batches.len() == 0 {
        Seq::empty()
    } else {
        all_txs(batches.drop_last()) + batches.last().txs
    }
}

/// Running one run of transactions and then another is running both.
pub proof fn lemma_run_concat(state: State, a: Seq<OrderedTxView>, b: Seq<OrderedTxView>)
    ensures
        run_txs(run_txs(state, a), b) == run_txs(state, a + b),
    decreases b.len(),
{
    if b.len() == 0 {
        assert(a + b =~= a);
    } else {
        assert((a + b).drop_last() =~= a + b.drop_last());
        lemma_run_concat(state, a, b.drop_last());
    }
}

/// What fits, fits up to any point and after it.
pub proof fn lemma_fits_concat(state: State, a: Seq<OrderedTxView>, b: Seq<OrderedTxView>)
    requires
        fits(state, a + b),
    ensures
        fits(state, a),
        fits(run_txs(state, a), b),
{
    let whole = a + b;
    assert forall|i: int| 0 <= i < a.len() implies !executor::overflows(
        (#[trigger] a[i]).op,
        state::reads_of(run_txs(state, a.take(i)), a[i].read_set),
    ) by {
        assert(whole.take(i) =~= a.take(i));
        assert(whole[i] == a[i]);
    }
    assert forall|i: int| 0 <= i < b.len() implies !executor::overflows(
        (#[trigger] b[i]).op,
        state::reads_of(run_txs(run_txs(state, a), b.take(i)), b[i].read_set),
    ) by {
        let j = a.len() + i;
        assert(whole.take(j) =~= a + b.take(i));
        lemma_run_concat(state, a, b.take(i));
        assert(whole[j] == b[i]);
    }
}

} // verus!
