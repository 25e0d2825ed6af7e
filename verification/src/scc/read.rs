//! Reads of a batch under speculation: what was stored when the batch began,
//! with the effects of a prefix of the batch merged in.

use crate::collections;
use crate::collections::{OrdMap, OrdSet};
use crate::error::{BatchFault, Error, Result, SpeculationFault};
use crate::model::{Inode, Key, ReadValue};
use crate::path::Path;
use crate::scc::commit::{CommitSequence, CommitSlotState, SlotView};
use crate::scc::delta;
use crate::scc::delta::{apply_delta_to_state, filter_delta_to_keys};
use crate::scc::plan::{SccPhase, SccTxPlan};
use crate::state;
use crate::state::{Reads, State};
use vstd::prelude::*;

verus! {

/// What came of a read.
pub enum MaterializedRead {
    /// The values of the keys.
    Ready(OrdMap<Key, ReadValue>),
    /// The slot with this index has to become terminal first.
    WaitFor(usize),
}

/// The present values of `reads`.
pub open spec fn state_of(reads: Reads) -> State {
    Map::new(
        |k: Path| reads.contains_key(k) && reads[k] is Present,
        |k: Path| reads[k]->Present_0,
    )
}

/// How far the replay of a prefix gets.
pub enum Replay {
    /// To its end, with this state.
    Reached(State),
    /// To a slot that is pending.
    Pending(int),
    /// To a slot that failed.
    Failed(int),
    /// To a slot that is not there.
    NoSlot(int),
    /// To a delta whose local write keys are not known.
    NoWrites(int),
    /// To a delta that does not fit this state.
    Misfit(int, State),
}

/// Replays the slots before `n` on `state`: a delta is applied, as far as it is
/// about `keys`, where its transaction writes one of them on this shard. A
/// failed slot ends the replay whatever it wrote.
pub open spec fn replay(
    state: State,
    slots: Seq<SlotView>,
    writes: Seq<Set<Path>>,
    keys: Set<Path>,
    n: int,
) -> Replay
    decreases n,
{
    if n <= 0 {
        Replay::Reached(state)
    } else {
        match replay(state, slots, writes, keys, n - 1) {
            Replay::Reached(s) => {
                let i = n - 1;
                if i >= slots.len() {
                    Replay::NoSlot(i)
                } else {
                    match slots[i] {
                        SlotView::Pending => Replay::Pending(i),
                        SlotView::Failed => Replay::Failed(i),
                        SlotView::NoOp => Replay::Reached(s),
                        SlotView::Delta(ops) => if i >= writes.len() {
                            Replay::NoWrites(i)
                        } else if writes[i].disjoint(keys) {
                            Replay::Reached(s)
                        } else {
                            match delta::apply_delta(s, delta::changes_within(ops, keys)) {
                                Some(t) => Replay::Reached(t),
                                None => Replay::Misfit(i, s),
                            }
                        },
                    }
                }
            },
            stopped => stopped,
        }
    }
}

/// Once the replay stops, it has stopped for good.
proof fn lemma_replay_stops(
    state: State,
    slots: Seq<SlotView>,
    writes: Seq<Set<Path>>,
    keys: Set<Path>,
    m: int,
    n: int,
)
    requires
        m <= n,
        !(replay(state, slots, writes, keys, m) is Reached),
    ensures
        replay(state, slots, writes, keys, n) == replay(state, slots, writes, keys, m),
    decreases n - m,
{
    if m < n {
        lemma_replay_stops(state, slots, writes, keys, m, n - 1);
    }
}

/// The write keys of each transaction.
pub open spec fn key_sets(sets: Seq<OrdSet<Key>>) -> Seq<Set<Path>> {
    sets.map_values(|s: OrdSet<Key>| s@)
}

/// The number of slots that a read in `phase` must see.
pub open spec fn prefix_len(plan: SccTxPlan, phase: SccPhase) -> int {
    match plan.bound(phase) {
        None => 0,
        Some(m) => m + 1,
    }
}

fn project_base_reads(
    base_read_cache: &OrdMap<Key, ReadValue>,
    local_read_keys: &OrdSet<Key>,
) -> (r: Result<OrdMap<Key, ReadValue>>)
    ensures
        match r {
            Ok(reads) => {
                &&& delta::all_read(local_read_keys@, base_read_cache@)
                &&& reads@ == base_read_cache@.restrict(local_read_keys@)
            },
            Err(Error::InvalidBatch(BatchFault::MissingBaseRead { key })) => {
                first_unread(local_read_keys@, base_read_cache@, key@)
            },
            Err(_) => false,
        },
{
    let n = local_read_keys.len();
    let ghost keys = local_read_keys.ordered();
    let mut out: OrdMap<Key, ReadValue> = OrdMap::new();
    let mut i: usize = 0;
    assert(out@ =~= base_read_cache@.restrict(keys.take(0).to_set()));
    while i < n
        invariant
            i <= n,
            n == keys.len(),
            keys == local_read_keys.ordered(),
            collections::ascending::<Key>(keys),
            forall|j: int| 0 <= j < i ==> base_read_cache@.contains_key(#[trigger] keys[j]),
            out@ == base_read_cache@.restrict(keys.take(i as int).to_set()),
        decreases n - i,
    {
        let key = local_read_keys.at(i);
        match base_read_cache.get(key) {
            Some(value) => {
                let _ = out.insert(key.clone(), *value);
            },
            None => {
                proof {
                    assert forall|k: Path| #[trigger]
                        local_read_keys@.contains(k) && !base_read_cache@.contains_key(
                            k,
                        ) implies k == key@ || <Key as collections::SortKey>::before(key@, k) by {
                        let j = choose|j: int| 0 <= j < keys.len() && keys[j] == k;
                        if j > i {
                            assert(<Key as collections::SortKey>::before(keys[i as int], keys[j]));
                        }
                    }
                }
                return Err(Error::InvalidBatch(BatchFault::MissingBaseRead { key: key.clone() }));
            },
        }
        proof {
            collections::lemma_take_to_set(keys, i as int);
        }
        i += 1;
        assert(out@ =~= base_read_cache@.restrict(keys.take(i as int).to_set()));
    }
    assert(keys.take(i as int) =~= keys);
    Ok(out)
}

fn read_values_to_state(reads: &OrdMap<Key, ReadValue>) -> (r: OrdMap<Key, Inode>)
    ensures
        r@ == state_of(reads@),
{
    let n = reads.len();
    let ghost keys = reads.ordered();
    let mut out: OrdMap<Key, Inode> = OrdMap::new();
    let mut i: usize = 0;
    assert(out@ =~= state_of(reads@.restrict(keys.take(0).to_set())));
    while i < n
        invariant
            i <= n,
            n == keys.len(),
            keys == reads.ordered(),
            collections::ascending::<Key>(keys),
            out@ == state_of(reads@.restrict(keys.take(i as int).to_set())),
        decreases n - i,
    {
        let key = reads.key_at(i);
        match reads.value_at(i) {
            ReadValue::Present(inode) => {
                let _ = out.insert(key.clone(), *inode);
            },
            ReadValue::Missing => {},
        }
        proof {
            collections::lemma_take_to_set(keys, i as int);
            if keys.take(i as int).to_set().contains(keys[i as int]) {
                let t = keys.take(i as int);
                let j = choose|j: int| 0 <= j < t.len() && t[j] == keys[i as int];
                assert(<Key as collections::SortKey>::before(keys[j], keys[i as int]));
                <Key as collections::SortKey>::before_irreflexive(keys[j]);
            }
        }
        i += 1;
        assert(out@ =~= state_of(reads@.restrict(keys.take(i as int).to_set())));
    }
    assert(keys.take(i as int) =~= keys);
    assert(reads@.restrict(keys.to_set()) =~= reads@);
    out
}

/// `key` is the first of `keys` that `base` has no value for.
pub open spec fn first_unread(keys: Set<Path>, base: Reads, key: Path) -> bool {
    &&& keys.contains(key)
    &&& !base.contains_key(key)
    &&& forall|k: Path| #[trigger]
        keys.contains(k) && !base.contains_key(k) ==> k == key
            || <Key as collections::SortKey>::before(key, k)
}

/// Why a read of `keys` that must see the first `n` slots fails.
pub open spec fn read_error(
    keys: Set<Path>,
    base: Reads,
    slots: Seq<SlotView>,
    writes: Seq<Set<Path>>,
    n: int,
    error: Error,
) -> bool {
    let known = delta::all_read(keys, base);
    let outcome = replay(state_of(base.restrict(keys)), slots, writes, keys, n);
    match error {
        Error::InvalidBatch(BatchFault::MissingBaseRead { key }) => first_unread(keys, base, key@),
        Error::SpeculationFailed(SpeculationFault::FailedSlot { index }) => {
            known && outcome == Replay::Failed(index as int)
        },
        Error::InvalidBatch(BatchFault::SlotOutOfRange { index, len }) => {
            known && outcome == Replay::NoSlot(index as int) && len == slots.len()
        },
        Error::InvalidBatch(BatchFault::MissingLocalWrites { index }) => {
            known && outcome == Replay::NoWrites(index as int)
        },
        _ => {
            &&& known && outcome is Misfit
            &&& exists|reached: State| #[trigger]
                delta::first_misfit(
                    outcome->Misfit_1,
                    delta::changes_within(slots[outcome->Misfit_0]->Delta_0, keys),
                    reached,
                    error,
                )
        },
    }
}

/// Reads `local_read_keys` as a transaction must see them in `phase`: as they
/// were when the batch began, with the effects of all transactions up to its
/// prefix bound. A failed transaction in that prefix makes the read fail, also
/// where it wrote none of the keys.
pub fn materialized_local_read(
    tx_plan: &SccTxPlan,
    phase: SccPhase,
    local_read_keys: &OrdSet<Key>,
    local_write_keys_by_tx: &Vec<OrdSet<Key>>,
    base_read_cache: &OrdMap<Key, ReadValue>,
    commit_seq: &CommitSequence,
) -> (r: Result<MaterializedRead>)
    ensures
        ({
            let keys = local_read_keys@;
            let base = state_of(base_read_cache@.restrict(keys));
            let slots = commit_seq@;
            let writes = key_sets(local_write_keys_by_tx@);
            let n = prefix_len(*tx_plan, phase);
            let known = delta::all_read(keys, base_read_cache@);
            let outcome = replay(base, slots, writes, keys, n);
            match r {
                Ok(MaterializedRead::Ready(reads)) => {
                    known && outcome is Reached && reads@ == state::reads_of(
                        outcome->Reached_0,
                        keys,
                    )
                },
                Ok(MaterializedRead::WaitFor(index)) => known && outcome == Replay::Pending(
                    index as int,
                ),
                Err(error) => read_error(keys, base_read_cache@, slots, writes, n, error),
            }
        }),
{
    let ghost keys = local_read_keys@;
    let ghost base = state_of(base_read_cache@.restrict(keys));
    let ghost slots = commit_seq@;
    let ghost writes_by = key_sets(local_write_keys_by_tx@);
    let ghost n = prefix_len(*tx_plan, phase);
    let base_reads = project_base_reads(base_read_cache, local_read_keys)?;
    let bound = match phase {
        SccPhase::Effect => tx_plan.effect_max_pred_index,
        SccPhase::Condition => tx_plan.condition_max_pred_index,
    };
    let max_pred_index = match bound {
        Some(index) => index,
        None => {
            assert(base_reads@ =~= state::reads_of(base, keys));
            return Ok(MaterializedRead::Ready(base_reads));
        },
    };
    let mut state = read_values_to_state(&base_reads);
    let mut index: usize = 0;
    loop
        invariant_except_break
            index <= max_pred_index,
            replay(base, slots, writes_by, keys, index as int) == Replay::Reached(state@),
        invariant
            n == max_pred_index + 1,
            n == prefix_len(*tx_plan, phase),
            keys == local_read_keys@,
            base == state_of(base_read_cache@.restrict(keys)),
            slots == commit_seq@,
            writes_by == key_sets(local_write_keys_by_tx@),
            delta::all_read(keys, base_read_cache@),
        ensures
            replay(base, slots, writes_by, keys, n) == Replay::Reached(state@),
        decreases max_pred_index - index,
    {
        let ghost before_state = state@;
        proof {
            // Where the replay stops at this slot, that is its outcome.
            if !(replay(base, slots, writes_by, keys, index + 1) is Reached) {
                lemma_replay_stops(base, slots, writes_by, keys, index + 1, n);
            }
        }
        let slot = match commit_seq.wait_terminal(index)? {
            Some(slot) => slot,
            None => return Ok(MaterializedRead::WaitFor(index)),
        };
        match slot {
            CommitSlotState::Pending => {},
            CommitSlotState::Failed => {
                return Err(Error::SpeculationFailed(SpeculationFault::FailedSlot { index }));
            },
            CommitSlotState::NoOp => {},
            CommitSlotState::Delta(tx_delta) => {
                if index >= local_write_keys_by_tx.len() {
                    return Err(Error::InvalidBatch(BatchFault::MissingLocalWrites { index }));
                }
                let local_writes = &local_write_keys_by_tx[index];
                assert(writes_by[index as int] == local_writes@);
                if !local_writes.is_disjoint(local_read_keys) {
                    let projected = filter_delta_to_keys(&tx_delta, local_read_keys);
                    match apply_delta_to_state(&mut state, &projected) {
                        Ok(_) => {},
                        Err(error) => {
                            proof {
                                assert(delta::first_misfit(
                                    before_state,
                                    projected@,
                                    state@,
                                    error,
                                ));
                                let i = choose|i: int|
                                    0 <= i < projected@.len() && #[trigger] delta::apply_delta(
                                        before_state,
                                        projected@.take(i),
                                    ) == Some(state@) && delta::misfit(state@, projected@[i], error);
                                assert(delta::misfit(state@, projected@[i], error));
                                assert(slots[index as int] == SlotView::Delta(tx_delta@));
                                assert(replay(base, slots, writes_by, keys, index + 1)
                                    == Replay::Misfit(index as int, before_state));
                                lemma_replay_stops(base, slots, writes_by, keys, index + 1, n);
                                assert(replay(base, slots, writes_by, keys, n) == Replay::Misfit(
                                    index as int,
                                    before_state,
                                ));
                                let outcome = replay(base, slots, writes_by, keys, n);
                                assert(delta::first_misfit(
                                    outcome->Misfit_1,
                                    delta::changes_within(
                                        slots[outcome->Misfit_0]->Delta_0,
                                        keys,
                                    ),
                                    state@,
                                    error,
                                ));
                            }
                            return Err(error);
                        },
                    }
                }
            },
        }
        if index == max_pred_index {
            break;
        }
        index += 1;
    }
    Ok(MaterializedRead::Ready(state::read_keys(&state, local_read_keys)))
}

} // verus!
