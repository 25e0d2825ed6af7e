//! What a shard knows of a batch on a snapshot: who read and wrote its keys, what is to
//! be written, and what the shards have reported.

use crate::collections;
use crate::collections::{OrdMap, OrdSet, SortKey};
use crate::engine::aria;
use crate::engine::aria::{aria_result_shard, AriaStageOutcome, StageView};
use crate::error::{BatchFault, Error, Result};
use crate::model;
use crate::model::{
    BatchId, Key, ReadValue, ShardId, TxId, TxResult, TxResultRecord, WriteOp, WriteOpView,
};
use crate::path::Path;
use crate::router;
use crate::router::ShardLayout;
use crate::state;
use crate::state::State;
use crate::storage;
use crate::storage::RedbInMemoryInodeStore;
use vstd::prelude::*;

verus! {

/// What a transaction is to do on this shard, should it stand.
#[derive(Debug)]
pub struct AriaStagedOutcome {
    pub tx_index: usize,
    pub tx_id: TxId,
    pub result: Option<TxResult>,
    pub local_writes: Vec<WriteOp>,
    pub is_result_shard: bool,
}

#[verifier::ext_equal]
pub struct StagedView {
    pub tx_index: usize,
    pub tx_id: TxId,
    pub result: Option<TxResult>,
    pub local_writes: Seq<WriteOpView>,
    pub is_result_shard: bool,
}

impl View for AriaStagedOutcome {
    type V = StagedView;

    open spec fn view(&self) -> StagedView {
        StagedView {
            tx_index: self.tx_index,
            tx_id: self.tx_id,
            result: self.result,
            local_writes: model::write_views(self.local_writes@),
            is_result_shard: self.is_result_shard,
        }
    }
}

/// What is kept of an outcome: its result only where this shard answers for it.
pub open spec fn kept_of(outcome: StageView) -> StagedView {
    StagedView {
        tx_index: outcome.tx_index,
        tx_id: outcome.tx_id,
        result: if outcome.is_result_shard {
            Some(outcome.result)
        } else {
            None
        },
        local_writes: outcome.writes,
        is_result_shard: outcome.is_result_shard,
    }
}

/// The transactions noted for each key.
pub type Users = Map<Path, Set<usize>>;

/// The transactions noted for a key.
pub open spec fn users_of(users: Users, key: Path) -> Set<usize> {
    if users.contains_key(key) {
        users[key]
    } else {
        Set::empty()
    }
}

/// The same with `index` noted for `key`.
pub open spec fn noted(users: Users, key: Path, index: usize) -> Users {
    users.insert(key, users_of(users, key).insert(index))
}

/// The same with `index` noted for the key of every one of `writes`.
pub open spec fn all_noted(users: Users, writes: Seq<WriteOpView>, index: usize) -> Users
    decreases writes.len(),
{
    if writes.len() == 0 {
        users
    } else {
        noted(all_noted(users, writes.drop_last(), index), writes.last().target(), index)
    }
}

#[verifier::ext_equal]
pub struct AriaView {
    pub staged: Map<usize, StagedView>,
    pub readers: Users,
    pub writers: Users,
    pub done: Set<ShardId>,
    pub failures: Map<ShardId, Set<usize>>,
}

impl AriaView {
    /// Nothing is known yet.
    pub open spec fn fresh() -> AriaView {
        AriaView {
            staged: Map::empty(),
            readers: Map::empty(),
            writers: Map::empty(),
            done: Set::empty(),
            failures: Map::empty(),
        }
    }

    /// The same with an outcome staged.
    pub open spec fn with_stage(self, outcome: StageView) -> AriaView {
        AriaView {
            staged: self.staged.insert(outcome.tx_index, kept_of(outcome)),
            writers: all_noted(self.writers, outcome.writes, outcome.tx_index),
            ..self
        }
    }

    /// Transaction `i` used `key`, to which an earlier one wrote.
    pub open spec fn loses(self, key: Path, i: usize) -> bool {
        (users_of(self.writers, key).contains(i) || users_of(self.readers, key).contains(i))
            && exists|j: usize| j < i && #[trigger] users_of(self.writers, key).contains(j)
    }

    /// The transactions that cannot stand by what this shard knows.
    pub open spec fn local_failures(self) -> Set<usize> {
        Set::new(|i: usize| exists|key: Path| #[trigger] self.loses(key, i))
    }

    /// The transactions that some shard reported as failed.
    pub open spec fn reported_failures(self) -> Set<usize> {
        Set::new(
            |i: usize|
                exists|s: ShardId| self.failures.contains_key(s) && #[trigger] self.failures[s].contains(
                    i,
                ),
        )
    }
}

/// Every one of `shard_count` shards is in `reported`.
pub open spec fn all_reported(reported: Set<ShardId>, shard_count: u64) -> bool {
    forall|s: ShardId| s < shard_count ==> #[trigger] reported.contains(s)
}

fn has_all_aria_reports(reported: &OrdSet<ShardId>, shard_count: u64) -> (r: bool)
    ensures
        r == all_reported(reported@, shard_count),
{
    let mut shard: u64 = 0;
    while shard < shard_count
        invariant
            shard <= shard_count,
            all_reported(reported@, shard),
        decreases shard_count - shard,
    {
        if !reported.contains(&shard) {
            return false;
        }
        shard += 1;
    }
    true
}

fn validate_aria_report_shard(batch_id: BatchId, from_shard: ShardId, shard_count: u64) -> (r:
    Result<()>)
    ensures
        match r {
            Ok(_) => from_shard < shard_count,
            Err(error) => report_error(batch_id, from_shard, shard_count, error),
        },
{
    if from_shard >= shard_count {
        return Err(
            Error::InvalidBatch(BatchFault::AriaReportShard { batch_id, from_shard, shard_count }),
        );
    }
    Ok(())
}

/// The report is from a shard that there is not.
pub open spec fn report_error(
    batch_id: BatchId,
    from_shard: ShardId,
    shard_count: u64,
    error: Error,
) -> bool {
    &&& from_shard >= shard_count
    &&& error == Error::InvalidBatch(
        BatchFault::AriaReportShard { batch_id, from_shard, shard_count },
    )
}

/// Why an outcome is refused by shard `shard_id` whatever is staged there.
pub open spec fn stage_error(
    shard_count: u64,
    shard_id: ShardId,
    outcome: StageView,
    error: Error,
) -> bool {
    let expected = aria::result_shard(outcome.tx_id, shard_count);
    match error {
        Error::InvalidBatch(BatchFault::AriaStageSender { tx_id, from_shard, expected: e }) => {
            &&& outcome.from_shard != expected
            &&& tx_id == outcome.tx_id && from_shard == outcome.from_shard && e == expected
        },
        Error::InvalidBatch(
            BatchFault::AriaStageFlag { tx_id, is_result_shard, expected: e, shard_id: s },
        ) => {
            &&& outcome.from_shard == expected
            &&& outcome.is_result_shard != (shard_id == expected)
            &&& tx_id == outcome.tx_id && is_result_shard == outcome.is_result_shard
            &&& e == (shard_id == expected) && s == shard_id
        },
        Error::InvalidBatch(BatchFault::AriaWriteMisrouted { key, shard_id: s, owner }) => {
            &&& outcome.from_shard == expected
            &&& outcome.is_result_shard == (shard_id == expected)
            &&& s == shard_id
            &&& exists|i: int| #[trigger]
                first_misrouted(outcome.writes, shard_count, shard_id, i, key@, owner)
        },
        _ => false,
    }
}

/// The write at `i` is the first that is not to a key of `shard_id`.
pub open spec fn first_misrouted(
    writes: Seq<WriteOpView>,
    shard_count: u64,
    shard_id: ShardId,
    i: int,
    key: Path,
    owner: ShardId,
) -> bool {
    &&& 0 <= i < writes.len()
    &&& writes[i].target() == key
    &&& owner == router::shard_of(shard_count, key)
    &&& owner != shard_id
    &&& all_local(writes.take(i), shard_count, shard_id)
}

/// All of `writes` are to keys of `shard_id`.
pub open spec fn all_local(writes: Seq<WriteOpView>, shard_count: u64, shard_id: ShardId) -> bool {
    forall|i: int|
        0 <= i < writes.len() ==> router::shard_of(shard_count, (#[trigger] writes[i]).target())
            == shard_id
}

/// An outcome is in order: it comes from the shard that answers for the transaction,
/// says so, and writes to keys of this shard only.
pub open spec fn stageable(shard_count: u64, shard_id: ShardId, outcome: StageView) -> bool {
    let expected = aria::result_shard(outcome.tx_id, shard_count);
    &&& outcome.from_shard == expected
    &&& outcome.is_result_shard == (shard_id == expected)
    &&& all_local(outcome.writes, shard_count, shard_id)
}

/// Checks that an outcome is in order.
fn check_stage(layout: &ShardLayout, shard_id: ShardId, outcome: &AriaStageOutcome) -> (r: Result<
    (),
>)
    requires
        layout.wf(),
    ensures
        match r {
            Ok(_) => stageable(layout.shard_count, shard_id, outcome@),
            Err(error) => {
                &&& !stageable(layout.shard_count, shard_id, outcome@)
                &&& stage_error(layout.shard_count, shard_id, outcome@, error)
            },
        },
{
    let expected = aria_result_shard(outcome.tx_id, layout.shard_count);
    if outcome.from_shard != expected {
        return Err(
            Error::InvalidBatch(
                BatchFault::AriaStageSender {
                    tx_id: outcome.tx_id,
                    from_shard: outcome.from_shard,
                    expected,
                },
            ),
        );
    }
    if outcome.is_result_shard != (shard_id == expected) {
        return Err(
            Error::InvalidBatch(
                BatchFault::AriaStageFlag {
                    tx_id: outcome.tx_id,
                    is_result_shard: outcome.is_result_shard,
                    expected: shard_id == expected,
                    shard_id,
                },
            ),
        );
    }
    let ghost views = outcome@.writes;
    let mut i: usize = 0;
    while i < outcome.writes.len()
        invariant
            i <= outcome.writes.len(),
            views == model::write_views(outcome.writes@),
            views == outcome@.writes,
            layout.wf(),
            expected == aria::result_shard(outcome.tx_id, layout.shard_count),
            outcome.from_shard == expected,
            outcome.is_result_shard == (shard_id == expected),
            all_local(views.take(i as int), layout.shard_count, shard_id),
        decreases outcome.writes.len() - i,
    {
        assert(views[i as int] == outcome.writes@[i as int]@);
        let key = outcome.writes[i].key();
        let owner = layout.shard_for_key(key);
        if owner != shard_id {
            let error = Error::InvalidBatch(
                BatchFault::AriaWriteMisrouted { key: key.clone(), shard_id, owner },
            );
            proof {
                assert(first_misrouted(
                    views,
                    layout.shard_count,
                    shard_id,
                    i as int,
                    error->InvalidBatch_0->AriaWriteMisrouted_key@,
                    error->InvalidBatch_0->AriaWriteMisrouted_owner,
                ));
                assert(router::shard_of(layout.shard_count, views[i as int].target()) != shard_id);
            }
            return Err(error);
        }
        i += 1;
    }
    assert(views.take(i as int) =~= views);
    Ok(())
}

/// The sets behind the values of a map.
pub open spec fn sets_in<K>(m: Map<K, OrdSet<usize>>) -> Map<K, Set<usize>> {
    m.map_values(|s: OrdSet<usize>| s@)
}

/// The views behind the values of a map.
pub open spec fn staged_in(m: Map<usize, AriaStagedOutcome>) -> Map<usize, StagedView> {
    m.map_values(|o: AriaStagedOutcome| o@)
}

/// Notes `index` for `key`.
fn note(users: &mut OrdMap<Key, OrdSet<usize>>, key: &Key, index: usize)
    ensures
        sets_in(final(users)@) == noted(sets_in(old(users)@), key@, index),
{
    let mut set = match users.remove(key) {
        Some(set) => set,
        None => OrdSet::new(),
    };
    let _ = set.insert(index);
    let _ = users.insert(key.clone(), set);
    proof {
        let a = sets_in(users@);
        let b = noted(sets_in(old(users)@), key@, index);
        assert(a.dom() =~= b.dom());
        assert forall|k: Path| a.contains_key(k) implies #[trigger] a[k] == b[k] by {
            if k != key@ {
                assert(old(users)@.contains_key(k));
                assert(users@[k] == old(users)@[k]);
            }
        }
        assert(a =~= b);
    }
}

/// The transactions of `writers` and `readers` after one of `writers`.
spec fn beaten(writers: Set<usize>, readers: Set<usize>) -> Set<usize> {
    Set::new(
        |i: usize|
            (writers.contains(i) || readers.contains(i)) && exists|j: usize|
                j < i && #[trigger] writers.contains(j),
    )
}

/// Adds to `failed` the elements of `users` above `winner`.
fn add_above(failed: &mut OrdSet<usize>, users: &OrdSet<usize>, winner: usize)
    ensures
        final(failed)@ == old(failed)@.union(users@.filter(|i: usize| winner < i)),
{
    let n = users.len();
    let ghost order = users.ordered();
    let ghost above = |i: usize| winner < i;
    let mut k: usize = 0;
    assert(failed@ =~= old(failed)@.union(order.take(0).to_set().filter(above)));
    while k < n
        invariant
            k <= n,
            n == order.len(),
            order == users.ordered(),
            above == (|i: usize| winner < i),
            failed@ == old(failed)@.union(order.take(k as int).to_set().filter(above)),
        decreases n - k,
    {
        let i = *users.at(k);
        if winner < i {
            let _ = failed.insert(i);
        }
        proof {
            collections::lemma_take_to_set(order, k as int);
        }
        k += 1;
        assert(failed@ =~= old(failed)@.union(order.take(k as int).to_set().filter(above)));
    }
    assert(order.take(k as int) =~= order);
}

/// Adds to `failed` the users of a key that lose to an earlier writer.
fn add_losers(failed: &mut OrdSet<usize>, writers: &OrdSet<usize>, readers: Option<&OrdSet<usize>>)
    ensures
        final(failed)@ == old(failed)@.union(
            beaten(
                writers@,
                match readers {
                    Some(set) => set@,
                    None => Set::empty(),
                },
            ),
        ),
{
    let ghost read = match readers {
        Some(set) => set@,
        None => Set::empty(),
    };
    if writers.len() == 0 {
        proof {
            assert forall|j: usize| !writers@.contains(j) by {
                assert(writers.ordered().len() == 0);
            }
            assert(failed@ =~= old(failed)@.union(beaten(writers@, read)));
        }
        return;
    }
    let winner = *writers.at(0);
    proof {
        assert forall|j: usize| #[trigger] writers@.contains(j) implies winner <= j by {
            let k = choose|k: int| 0 <= k < writers.ordered().len() && writers.ordered()[k] == j;
            if k > 0 {
                assert(<usize as SortKey>::before(writers.ordered()[0], writers.ordered()[k]));
            }
        }
    }
    add_above(failed, writers, winner);
    match readers {
        Some(set) => add_above(failed, set, winner),
        None => {},
    }
    proof {
        assert forall|i: usize| failed@.contains(i) <==> old(failed)@.union(
            beaten(writers@, read),
        ).contains(i) by {
            if winner < i {
                assert(writers@.contains(winner));
            }
        }
        assert(failed@ =~= old(failed)@.union(beaten(writers@, read)));
    }
}

/// What this shard knows of a batch.
pub struct AriaBatchState {
    staged: OrdMap<usize, AriaStagedOutcome>,
    readers: OrdMap<Key, OrdSet<usize>>,
    writers: OrdMap<Key, OrdSet<usize>>,
    done: OrdSet<ShardId>,
    failures: OrdMap<ShardId, OrdSet<usize>>,
}

impl View for AriaBatchState {
    type V = AriaView;

    closed spec fn view(&self) -> AriaView {
        AriaView {
            staged: staged_in(self.staged@),
            readers: sets_in(self.readers@),
            writers: sets_in(self.writers@),
            done: self.done@,
            failures: sets_in(self.failures@),
        }
    }
}

/// `state` with the writes of the first `n` of `order` made, but for those in `failed`.
pub open spec fn installed(
    state: State,
    staged: Map<usize, StagedView>,
    order: Seq<usize>,
    failed: Set<usize>,
    n: int,
) -> State
    decreases n,
{
    if n <= 0 {
        state
    } else {
        let before = installed(state, staged, order, failed, n - 1);
        if failed.contains(order[n - 1]) {
            before
        } else {
            state::apply_writes(before, staged[order[n - 1]].local_writes)
        }
    }
}

/// The results of the first `n` of `order` for which shard `shard_id` answers, but for
/// those in `failed`.
pub open spec fn answers(
    staged: Map<usize, StagedView>,
    order: Seq<usize>,
    failed: Set<usize>,
    shard_id: ShardId,
    n: int,
) -> Seq<TxResultRecord>
    decreases n,
{
    if n <= 0 {
        Seq::empty()
    } else {
        let before = answers(staged, order, failed, shard_id, n - 1);
        let last = staged[order[n - 1]];
        if failed.contains(order[n - 1]) || !last.is_result_shard {
            before
        } else {
            before.push(
                TxResultRecord { tx_id: last.tx_id, shard_id, result: last.result->0 },
            )
        }
    }
}

impl AriaBatchState {
    /// Everything staged is under its index, and has a result where this shard answers.
    pub closed spec fn wf(&self) -> bool {
        forall|i: usize| #[trigger]
            self@.staged.contains_key(i) ==> {
                &&& self@.staged[i].tx_index == i
                &&& self@.staged[i].is_result_shard == self@.staged[i].result is Some
            }
    }

    pub fn new() -> (r: Self)
        ensures
            r.wf(),
            r@ == AriaView::fresh(),
    {
        let r = AriaBatchState {
            staged: OrdMap::new(),
            readers: OrdMap::new(),
            writers: OrdMap::new(),
            done: OrdSet::new(),
            failures: OrdMap::new(),
        };
        assert(r@ =~= AriaView::fresh());
        r
    }

    /// Reads a key of this shard for a transaction, and notes that it was read.
    pub fn read_snapshot(
        &mut self,
        store: &RedbInMemoryInodeStore,
        layout: &ShardLayout,
        shard_id: ShardId,
        tx_index: usize,
        key: &Key,
    ) -> (r: Result<ReadValue>)
        requires
            old(self).wf(),
            store.wf(),
            layout.wf(),
        ensures
            final(self).wf(),
            ({
                let owner = router::shard_of(layout.shard_count, key@);
                match r {
                    Ok(value) => {
                        &&& owner == shard_id
                        &&& value == state::value_in(store@, key@)
                        &&& final(self)@ == (AriaView {
                            readers: noted(old(self)@.readers, key@, tx_index),
                            ..old(self)@
                        })
                    },
                    Err(error) => {
                        &&& final(self)@ == old(self)@
                        &&& misread(owner, shard_id, key@, error)
                    },
                }
            }),
    {
        let owner = layout.shard_for_key(key);
        if owner != shard_id {
            return Err(
                Error::InvalidBatch(
                    BatchFault::AriaReadMisrouted { key: key.clone(), shard_id, owner },
                ),
            );
        }
        let mut keys: OrdSet<Key> = OrdSet::new();
        let _ = keys.insert(key.clone());
        let mut reads = match store.read_many(&keys) {
            Ok(reads) => reads,
            Err(error) => return Err(error),
        };
        match reads.remove(key) {
            Some(value) => {
                note(&mut self.readers, key, tx_index);
                Ok(value)
            },
            None => {
                assert(keys@.contains(key@));
                Err(Error::InvalidBatch(BatchFault::MissingReadValue(key.clone())))
            },
        }
    }

    /// Keeps what a transaction is to do here, and notes the keys it writes.
    pub fn stage_outcome(
        &mut self,
        layout: &ShardLayout,
        shard_id: ShardId,
        outcome: AriaStageOutcome,
    ) -> (r: Result<()>)
        requires
            old(self).wf(),
            layout.wf(),
        ensures
            final(self).wf(),
            staging(layout.shard_count, shard_id, outcome@, old(self)@, final(self)@, r),
    {
        match check_stage(layout, shard_id, &outcome) {
            Ok(_) => {},
            Err(error) => return Err(error),
        }
        let ghost before = self@;
        let ghost view = outcome@;
        let AriaStageOutcome { batch_id, tx_index, tx_id, result, writes, is_result_shard, .. } =
            outcome;
        let kept = AriaStagedOutcome {
            tx_index,
            tx_id,
            result: if is_result_shard {
                Some(result)
            } else {
                None
            },
            local_writes: model::clone_writes(&writes),
            is_result_shard,
        };
        assert(kept@ =~= kept_of(view));
        let previous = self.staged.insert(tx_index, kept);
        assert(staged_in(self.staged@) =~= before.staged.insert(tx_index, kept_of(view)));
        if previous.is_some() {
            return Err(
                Error::InvalidBatch(BatchFault::AriaStagedTwice { batch_id, tx_index, shard_id }),
            );
        }
        let ghost views = view.writes;
        let ghost staged = self.staged@;
        let mut i: usize = 0;
        assert(views.take(0) =~= Seq::<WriteOpView>::empty());
        while i < writes.len()
            invariant
                i <= writes.len(),
                views == model::write_views(writes@),
                before == old(self)@,
                self.staged@ == staged,
                self@ == (AriaView {
                    staged: staged_in(staged),
                    writers: all_noted(before.writers, views.take(i as int), tx_index),
                    ..before
                }),
            decreases writes.len() - i,
        {
            assert(views[i as int] == writes@[i as int]@);
            note(&mut self.writers, writes[i].key(), tx_index);
            i += 1;
            proof {
                assert(views.take(i as int).drop_last() =~= views.take(i - 1));
                assert(views.take(i as int).last() == views[i - 1]);
            }
        }
        assert(views.take(i as int) =~= views);
        assert(self@ =~= before.with_stage(view));
        Ok(())
    }

    /// Notes that a shard has run all its transactions.
    pub fn record_execution_done(
        &mut self,
        batch_id: BatchId,
        from_shard: ShardId,
        shard_count: u64,
    ) -> (r: Result<()>)
        requires
            old(self).wf(),
        ensures
            final(self).wf(),
            ({
                let after = AriaView { done: old(self)@.done.insert(from_shard), ..old(self)@ };
                match r {
                    Ok(_) => {
                        &&& from_shard < shard_count
                        &&& !old(self)@.done.contains(from_shard)
                        &&& final(self)@ == after
                    },
                    Err(error) => {
                        ||| report_error(batch_id, from_shard, shard_count, error) && final(self)@
                            == old(self)@
                        ||| {
                            &&& from_shard < shard_count
                            &&& old(self)@.done.contains(from_shard)
                            &&& error == Error::InvalidBatch(
                                BatchFault::AriaDoneTwice { batch_id, from_shard },
                            )
                            &&& final(self)@ == after
                        }
                    },
                }
            }),
    {
        match validate_aria_report_shard(batch_id, from_shard, shard_count) {
            Ok(_) => {},
            Err(error) => return Err(error),
        }
        if !self.done.insert(from_shard) {
            return Err(Error::InvalidBatch(BatchFault::AriaDoneTwice { batch_id, from_shard }));
        }
        Ok(())
    }

    /// Notes which transactions failed by what a shard knows.
    pub fn record_local_failures(
        &mut self,
        batch_id: BatchId,
        from_shard: ShardId,
        failed_indices: OrdSet<usize>,
        shard_count: u64,
    ) -> (r: Result<()>)
        requires
            old(self).wf(),
        ensures
            final(self).wf(),
            ({
                let after = AriaView {
                    failures: old(self)@.failures.insert(from_shard, failed_indices@),
                    ..old(self)@
                };
                match r {
                    Ok(_) => {
                        &&& from_shard < shard_count
                        &&& !old(self)@.failures.contains_key(from_shard)
                        &&& final(self)@ == after
                    },
                    Err(error) => {
                        ||| report_error(batch_id, from_shard, shard_count, error) && final(self)@
                            == old(self)@
                        ||| {
                            &&& from_shard < shard_count
                            &&& old(self)@.failures.contains_key(from_shard)
                            &&& error == Error::InvalidBatch(
                                BatchFault::AriaFailuresTwice { batch_id, from_shard },
                            )
                            &&& final(self)@ == after
                        }
                    },
                }
            }),
    {
        match validate_aria_report_shard(batch_id, from_shard, shard_count) {
            Ok(_) => {},
            Err(error) => return Err(error),
        }
        let previous = self.failures.insert(from_shard, failed_indices);
        assert(sets_in(self.failures@) =~= old(self)@.failures.insert(
            from_shard,
            failed_indices@,
        ));
        if previous.is_some() {
            return Err(Error::InvalidBatch(BatchFault::AriaFailuresTwice { batch_id, from_shard }));
        }
        Ok(())
    }

    /// Whether every shard has run all its transactions.
    pub fn execution_done(&self, shard_count: u64) -> (r: bool)
        ensures
            r == all_reported(self@.done, shard_count),
    {
        has_all_aria_reports(&self.done, shard_count)
    }

    /// All failures that were reported, once every shard has reported.
    pub fn failure_reports(&self, shard_count: u64) -> (r: Option<OrdSet<usize>>)
        ensures
            match r {
                Some(failed) => {
                    &&& all_reported(self@.failures.dom(), shard_count)
                    &&& failed@ == self@.reported_failures()
                },
                None => !all_reported(self@.failures.dom(), shard_count),
            },
    {
        let reported = self.failures.key_set();
        assert(reported@ =~= self@.failures.dom());
        if !has_all_aria_reports(&reported, shard_count) {
            return None;
        }
        let n = self.failures.len();
        let ghost order = self.failures.ordered();
        let mut failed: OrdSet<usize> = OrdSet::new();
        let mut k: usize = 0;
        while k < n
            invariant
                k <= n,
                n == order.len(),
                order == self.failures.ordered(),
                forall|i: usize| #[trigger]
                    failed@.contains(i) <==> exists|m: int|
                        0 <= m < k && #[trigger] self.failures@[order[m]]@.contains(i),
            decreases n - k,
        {
            let ghost before = failed@;
            let set = self.failures.value_at(k);
            failed.extend(set);
            proof {
                assert forall|i: usize| #[trigger] failed@.contains(i) <==> exists|m: int|
                    0 <= m < k + 1 && #[trigger] self.failures@[order[m]]@.contains(i) by {
                    if before.contains(i) {
                        let m = choose|m: int|
                            0 <= m < k && #[trigger] self.failures@[order[m]]@.contains(i);
                        assert(self.failures@[order[m]]@.contains(i));
                    }
                    if set@.contains(i) {
                        assert(self.failures@[order[k as int]]@.contains(i));
                    }
                }
            }
            k += 1;
        }
        proof {
            assert forall|i: usize| failed@.contains(i) <==> self@.reported_failures().contains(
                i,
            ) by {
                if failed@.contains(i) {
                    let m = choose|m: int|
                        0 <= m < n && #[trigger] self.failures@[order[m]]@.contains(i);
                    assert(self.failures@.dom().contains(order[m]));
                    assert(self@.failures[order[m]].contains(i));
                }
                if self@.reported_failures().contains(i) {
                    let s = choose|s: ShardId|
                        self@.failures.contains_key(s) && #[trigger] self@.failures[s].contains(i);
                    assert(self.failures@.dom().contains(s));
                    let m = choose|m: int| 0 <= m < order.len() && order[m] == s;
                    assert(self.failures@[order[m]]@.contains(i));
                }
            }
            assert(failed@ =~= self@.reported_failures());
        }
        Some(failed)
    }

    /// The transactions that lose a key of this shard to an earlier writer.
    pub fn local_failed_indices(&self) -> (r: OrdSet<usize>)
        ensures
            r@ == self@.local_failures(),
    {
        let n = self.writers.len();
        let ghost order = self.writers.ordered();
        let mut failed: OrdSet<usize> = OrdSet::new();
        let mut k: usize = 0;
        while k < n
            invariant
                k <= n,
                n == order.len(),
                order == self.writers.ordered(),
                forall|i: usize| #[trigger]
                    failed@.contains(i) <==> exists|m: int|
                        0 <= m < k && #[trigger] self@.loses(order[m], i),
            decreases n - k,
        {
            let ghost before = failed@;
            let key = self.writers.key_at(k);
            let writers = self.writers.value_at(k);
            add_losers(&mut failed, writers, self.readers.get(key));
            proof {
                assert forall|i: usize| #[trigger] failed@.contains(i) <==> exists|m: int|
                    0 <= m < k + 1 && #[trigger] self@.loses(order[m], i) by {
                    assert(users_of(self@.writers, order[k as int]) == writers@);
                    if before.contains(i) {
                        let m = choose|m: int| 0 <= m < k && #[trigger] self@.loses(order[m], i);
                        assert(self@.loses(order[m], i));
                    }
                    if failed@.contains(i) && !before.contains(i) {
                        assert(self@.loses(order[k as int], i));
                    }
                }
            }
            k += 1;
        }
        proof {
            assert forall|i: usize| failed@.contains(i) <==> self@.local_failures().contains(
                i,
            ) by {
                if failed@.contains(i) {
                    let m = choose|m: int| 0 <= m < n && #[trigger] self@.loses(order[m], i);
                    assert(self@.loses(order[m], i));
                }
                if self@.local_failures().contains(i) {
                    let key = choose|key: Path| #[trigger] self@.loses(key, i);
                    let j = choose|j: usize|
                        j < i && #[trigger] users_of(self@.writers, key).contains(j);
                    assert(self.writers@.dom().contains(key));
                    let m = choose|m: int| 0 <= m < order.len() && order[m] == key;
                    assert(self@.loses(order[m], i));
                }
            }
            assert(failed@ =~= self@.local_failures());
        }
        failed
    }

    /// Makes the writes of all staged outcomes but those of `failed_indices`, in batch
    /// order, and adds the results for which this shard answers to `records`.
    pub fn install_aria_successes(
        &self,
        store: &mut RedbInMemoryInodeStore,
        shard_id: ShardId,
        failed_indices: &OrdSet<usize>,
        records: &mut Vec<TxResultRecord>,
    ) -> (r: Result<()>)
        requires
            self.wf(),
            old(store).wf(),
        ensures
            final(store).wf(),
            installation(
                self@.staged,
                failed_indices@,
                shard_id,
                old(store)@,
                final(store)@,
                old(records)@,
                final(records)@,
                r,
            ),
    {
        let ghost staged = self@.staged;
        let ghost failed = failed_indices@;
        let ghost start = store@;
        let ghost first = records@;
        let n = self.staged.len();
        let ghost order = self.staged.ordered();
        assert(staged.dom() =~= self.staged@.dom());
        let mut i: usize = 0;
        assert(records@ =~= first + answers(staged, order, failed, shard_id, 0));
        while i < n
            invariant
                i <= n,
                n == order.len(),
                order == self.staged.ordered(),
                order == collections::sorted::<usize>(staged.dom()),
                staged == self@.staged,
                staged.dom() == self.staged@.dom(),
                failed == failed_indices@,
                start == old(store)@,
                first == old(records)@,
                self.wf(),
                store.wf(),
                store@ == installed(start, staged, order, failed, i as int),
                records@ == first + answers(staged, order, failed, shard_id, i as int),
            decreases n - i,
        {
            let index = *self.staged.key_at(i);
            let outcome = self.staged.value_at(i);
            assert(staged.contains_key(index) && staged[index] == outcome@);
            if !failed_indices.contains(&index) {
                match store.apply_writes_atomically(&outcome.local_writes) {
                    Ok(_) => {},
                    Err(error) => {
                        proof {
                            let n = i as int;
                            assert(records@ == first + answers(staged, order, failed, shard_id, n));
                        }
                        return Err(error);
                    },
                }
                if outcome.is_result_shard {
                    match outcome.result {
                        Some(result) => {
                            records.push(TxResultRecord { tx_id: outcome.tx_id, shard_id, result });
                        },
                        None => {
                            return Err(
                                Error::InvalidBatch(
                                    BatchFault::AriaNoResult { tx_id: outcome.tx_id },
                                ),
                            );
                        },
                    }
                }
            }
            i += 1;
            assert(records@ =~= first + answers(staged, order, failed, shard_id, i as int));
        }
        Ok(())
    }
}

/// What installing the outcomes of a batch does and answers: all but `failed` are made,
/// or, where the store fails, those before the one at which it failed.
pub open spec fn installation(
    staged: Map<usize, StagedView>,
    failed: Set<usize>,
    shard_id: ShardId,
    before: State,
    after: State,
    old_records: Seq<TxResultRecord>,
    new_records: Seq<TxResultRecord>,
    r: Result<()>,
) -> bool {
    let order = collections::sorted::<usize>(staged.dom());
    match r {
        Ok(_) => {
            let n = order.len() as int;
            &&& after == installed(before, staged, order, failed, n)
            &&& new_records == old_records + answers(staged, order, failed, shard_id, n)
        },
        Err(error) => {
            &&& storage::store_error(error)
            &&& exists|n: int|
                0 <= n < order.len() && !failed.contains(order[n]) && new_records == old_records
                    + #[trigger] answers(staged, order, failed, shard_id, n) && (after
                    == installed(before, staged, order, failed, n) || (error is RedbCommit && after
                    == installed(before, staged, order, failed, n + 1)))
        },
    }
}

/// Why a key was not read: it lives elsewhere, or the store failed.
pub open spec fn misread(owner: ShardId, shard_id: ShardId, key: Path, error: Error) -> bool {
    match error {
        Error::InvalidBatch(BatchFault::AriaReadMisrouted { key: k, shard_id: s, owner: o }) => {
            owner != shard_id && k@ == key && s == shard_id && o == owner
        },
        _ => owner == shard_id && storage::store_error(error),
    }
}

/// What staging an outcome does and answers.
pub open spec fn staging(
    shard_count: u64,
    shard_id: ShardId,
    outcome: StageView,
    before: AriaView,
    after: AriaView,
    r: Result<()>,
) -> bool {
    match r {
        Ok(_) => {
            &&& stageable(shard_count, shard_id, outcome)
            &&& !before.staged.contains_key(outcome.tx_index)
            &&& after == before.with_stage(outcome)
        },
        Err(error) => {
            ||| {
                &&& !stageable(shard_count, shard_id, outcome)
                &&& stage_error(shard_count, shard_id, outcome, error)
                &&& after == before
            }
            ||| {
                &&& stageable(shard_count, shard_id, outcome)
                &&& before.staged.contains_key(outcome.tx_index)
                &&& error == Error::InvalidBatch(
                    BatchFault::AriaStagedTwice {
                        batch_id: outcome.batch_id,
                        tx_index: outcome.tx_index,
                        shard_id,
                    },
                )
                &&& after == (AriaView {
                    staged: before.staged.insert(outcome.tx_index, kept_of(outcome)),
                    ..before
                })
            }
        },
    }
}

} // verus!
