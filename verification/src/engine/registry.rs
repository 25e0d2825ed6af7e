//! Where messages wait for their worker, and results for their client.

use crate::collections;
use crate::collections::{OrdMap, OrdSet, SortKey};
use crate::engine::reads::LocalReadResult;
use crate::error::{BatchFault, Error, Result};
use crate::model::{BatchId, ReadPhase, TxId, TxResult};
use vstd::prelude::*;

verus! {

/// Which worker a mailbox is for.
#[derive(Clone, Copy, Debug, PartialEq, Eq, Structural)]
pub struct MailboxKey {
    pub batch_id: BatchId,
    pub tx_id: TxId,
    pub phase: ReadPhase,
}

/// The place of a phase among all.
pub open spec fn phase_rank(phase: ReadPhase) -> int {
    match phase {
        ReadPhase::Calvin => 0,
        ReadPhase::SccEffect => 1,
        ReadPhase::SccCondition => 2,
        ReadPhase::AriaFallback => 3,
    }
}

fn rank_of(phase: ReadPhase) -> (r: u8)
    ensures
        r == phase_rank(phase),
{
    match phase {
        ReadPhase::Calvin => 0,
        ReadPhase::SccEffect => 1,
        ReadPhase::SccCondition => 2,
        ReadPhase::AriaFallback => 3,
    }
}

impl View for MailboxKey {
    type V = MailboxKey;

    open spec fn view(&self) -> MailboxKey {
        *self
    }
}

impl SortKey for MailboxKey {
    open spec fn before(a: MailboxKey, b: MailboxKey) -> bool {
        a.batch_id < b.batch_id || (a.batch_id == b.batch_id && (a.tx_id < b.tx_id || (a.tx_id
            == b.tx_id && phase_rank(a.phase) < phase_rank(b.phase))))
    }

    proof fn before_irreflexive(a: MailboxKey) {
    }

    proof fn before_transitive(a: MailboxKey, b: MailboxKey, c: MailboxKey) {
    }

    proof fn before_total(a: MailboxKey, b: MailboxKey) {
    }

    fn is_before(&self, other: &MailboxKey) -> (r: bool) {
        self.batch_id < other.batch_id || (self.batch_id == other.batch_id && (self.tx_id
            < other.tx_id || (self.tx_id == other.tx_id && rank_of(self.phase) < rank_of(
            other.phase,
        ))))
    }

    fn same_key(&self, other: &MailboxKey) -> (r: bool) {
        *self == *other
    }

    fn duplicate(&self) -> (r: MailboxKey) {
        *self
    }
}

/// In this phase transactions run under locks.
pub open spec fn under_locks(phase: ReadPhase) -> bool {
    phase == ReadPhase::Calvin || phase == ReadPhase::AriaFallback
}

fn is_under_locks(phase: ReadPhase) -> (r: bool)
    ensures
        r == under_locks(phase),
{
    matches!(phase, ReadPhase::Calvin | ReadPhase::AriaFallback)
}

/// The mailbox that a message goes to.
pub open spec fn mailbox_of(msg: LocalReadResult) -> MailboxKey {
    MailboxKey { batch_id: msg.batch_id, tx_id: msg.tx_id, phase: msg.phase }
}

/// The messages for a worker, the oldest first, whether there is such a worker, and
/// whether it has ended.
pub struct MailboxEntry {
    messages: Vec<LocalReadResult>,
    taken: bool,
    closed: bool,
}

pub struct MailboxView {
    pub messages: Seq<LocalReadResult>,
    pub taken: bool,
    pub closed: bool,
}

impl View for MailboxEntry {
    type V = MailboxView;

    closed spec fn view(&self) -> MailboxView {
        MailboxView { messages: self.messages@, taken: self.taken, closed: self.closed }
    }
}

impl MailboxView {
    /// A mailbox that nobody knows of yet.
    pub open spec fn fresh() -> MailboxView {
        MailboxView { messages: Seq::empty(), taken: false, closed: false }
    }

    /// The mailbox of a worker that has ended.
    pub open spec fn shut() -> MailboxView {
        MailboxView { messages: Seq::empty(), taken: true, closed: true }
    }
}

/// The mailboxes of all workers. A message may come before its worker.
pub struct ReadResultMailboxRegistry {
    boxes: OrdMap<MailboxKey, MailboxEntry>,
    ended: OrdSet<BatchId>,
}

#[verifier::ext_equal]
pub struct MailboxesView {
    pub boxes: Map<MailboxKey, MailboxView>,
    /// The batches that are over.
    pub ended: Set<BatchId>,
}

impl View for ReadResultMailboxRegistry {
    type V = MailboxesView;

    closed spec fn view(&self) -> MailboxesView {
        MailboxesView {
            boxes: self.boxes@.map_values(|e: MailboxEntry| e@),
            ended: self.ended@,
        }
    }
}

impl MailboxesView {
    /// The mailbox of a worker, a fresh one where there is none yet.
    pub open spec fn at(self, key: MailboxKey) -> MailboxView {
        if self.boxes.contains_key(key) {
            self.boxes[key]
        } else {
            MailboxView::fresh()
        }
    }

    pub open spec fn with(self, key: MailboxKey, entry: MailboxView) -> MailboxesView {
        MailboxesView { boxes: self.boxes.insert(key, entry), ..self }
    }

    /// The mailboxes of a batch for which no worker came.
    pub open spec fn unclaimed(self, batch_id: BatchId) -> Set<MailboxKey> {
        self.boxes.dom().filter(
            |key: MailboxKey| key.batch_id == batch_id && !self.boxes[key].taken,
        )
    }

    /// The same once a batch is over.
    pub open spec fn without(self, batch_id: BatchId) -> MailboxesView {
        MailboxesView {
            boxes: self.boxes.remove_keys(
                self.boxes.dom().filter(|key: MailboxKey| key.batch_id == batch_id),
            ),
            ended: self.ended.insert(batch_id),
        }
    }

    /// A message for a worker that has ended, or one under locks for a batch that is over:
    /// every worker under locks waits for all its messages, so this one has no business
    /// here.
    pub open spec fn too_late(self, msg: LocalReadResult) -> bool {
        ||| self.at(mailbox_of(msg)).closed
        ||| under_locks(msg.phase) && self.ended.contains(msg.batch_id)
    }
}

impl ReadResultMailboxRegistry {
    pub fn new() -> (r: Self)
        ensures
            r@ == (MailboxesView { boxes: Map::empty(), ended: Set::empty() }),
    {
        let r = ReadResultMailboxRegistry { boxes: OrdMap::new(), ended: OrdSet::new() };
        assert(r@.boxes =~= Map::<MailboxKey, MailboxView>::empty());
        r
    }

    /// Takes the entry of a mailbox out.
    fn take_entry(&mut self, key: &MailboxKey) -> (r: MailboxEntry)
        ensures
            r@ == old(self)@.at(*key),
            final(self)@.boxes == old(self)@.boxes.remove(*key),
            final(self)@.ended == old(self)@.ended,
    {
        let entry = match self.boxes.remove(key) {
            Some(entry) => entry,
            None => MailboxEntry { messages: Vec::new(), taken: false, closed: false },
        };
        assert(self@.boxes =~= old(self)@.boxes.remove(*key));
        entry
    }

    fn put_entry(&mut self, key: MailboxKey, entry: MailboxEntry)
        ensures
            final(self)@ == old(self)@.with(key, entry@),
    {
        let _ = self.boxes.insert(key, entry);
        assert(self@.boxes =~= old(self)@.boxes.insert(key, entry@));
    }

    /// Claims the mailbox of a worker; this is done once.
    pub fn receiver(&mut self, batch_id: BatchId, tx_id: TxId, phase: ReadPhase) -> (r: Result<
        MailboxKey,
    >)
        ensures
            ({
                let key = MailboxKey { batch_id, tx_id, phase };
                let before = old(self)@.at(key);
                match r {
                    Ok(k) => {
                        &&& k == key
                        &&& !before.taken
                        &&& final(self)@ == old(self)@.with(
                            key,
                            MailboxView { taken: true, ..before },
                        )
                    },
                    Err(error) => {
                        &&& before.taken
                        &&& error == Error::InvalidBatch(
                            BatchFault::MailboxTaken { batch_id, tx_id, phase },
                        )
                        &&& final(self)@ == old(self)@.with(key, before)
                    },
                }
            }),
    {
        let key = MailboxKey { batch_id, tx_id, phase };
        let mut entry = self.take_entry(&key);
        let taken = entry.taken;
        entry.taken = true;
        self.put_entry(key, entry);
        proof {
            let before = old(self)@.at(key);
            assert(self@.boxes =~= old(self)@.boxes.insert(
                key,
                MailboxView { taken: true, ..before },
            ));
        }
        if taken {
            return Err(Error::InvalidBatch(BatchFault::MailboxTaken { batch_id, tx_id, phase }));
        }
        Ok(key)
    }

    fn is_closed(&self, key: &MailboxKey) -> (r: bool)
        ensures
            r == self@.at(*key).closed,
    {
        match self.boxes.get(key) {
            Some(entry) => entry.closed,
            None => false,
        }
    }

    /// Closes the mailbox of a worker that has ended: what is left in it is dropped, and
    /// nothing is put into it any more. A mailbox that is gone stays gone.
    pub fn close(&mut self, key: &MailboxKey)
        ensures
            final(self)@ == (if old(self)@.boxes.contains_key(*key) {
                old(self)@.with(*key, MailboxView::shut())
            } else {
                old(self)@
            }),
    {
        if self.boxes.contains_key(key) {
            self.put_entry(
                *key,
                MailboxEntry { messages: Vec::new(), taken: true, closed: true },
            );
            assert(self@.boxes =~= old(self)@.boxes.insert(*key, MailboxView::shut()));
        }
    }

    /// Puts a message into its mailbox; refuses it where its worker has ended.
    pub fn route(&mut self, result: LocalReadResult) -> (r: Result<()>)
        ensures
            ({
                let key = mailbox_of(result);
                let before = old(self)@.at(key);
                match r {
                    Ok(_) => {
                        &&& !old(self)@.too_late(result)
                        &&& final(self)@ == old(self)@.with(
                            key,
                            MailboxView { messages: before.messages.push(result), ..before },
                        )
                    },
                    Err(error) => {
                        &&& old(self)@.too_late(result)
                        &&& error == (Error::ChannelClosed {
                            batch_id: result.batch_id,
                            tx_id: result.tx_id,
                            phase: result.phase,
                        })
                        &&& final(self)@ == old(self)@
                    },
                }
            }),
    {
        let key = MailboxKey {
            batch_id: result.batch_id,
            tx_id: result.tx_id,
            phase: result.phase,
        };
        if self.is_closed(&key) || is_under_locks(result.phase) && self.ended.contains(
            &result.batch_id,
        ) {
            return Err(
                Error::ChannelClosed { batch_id: key.batch_id, tx_id: key.tx_id, phase: key.phase },
            );
        }
        let ghost msg = result;
        let mut entry = self.take_entry(&key);
        entry.messages.push(result);
        self.put_entry(key, entry);
        proof {
            let before = old(self)@.at(key);
            assert(self@.boxes =~= old(self)@.boxes.insert(
                key,
                MailboxView { messages: before.messages.push(msg), ..before },
            ));
        }
        Ok(())
    }

    /// Takes the oldest message out of a mailbox, if there is one. Where the mailbox is
    /// closed or gone, no message will come.
    pub fn next(&mut self, key: &MailboxKey) -> (r: Result<Option<LocalReadResult>>)
        ensures
            ({
                let before = old(self)@.at(*key);
                match r {
                    Ok(Some(msg)) => {
                        &&& old(self)@.boxes.contains_key(*key) && !before.closed
                        &&& before.messages.len() > 0
                        &&& msg == before.messages[0]
                        &&& final(self)@ == old(self)@.with(
                            *key,
                            MailboxView { messages: before.messages.skip(1), ..before },
                        )
                    },
                    Ok(None) => {
                        &&& old(self)@.boxes.contains_key(*key) && !before.closed
                        &&& before.messages.len() == 0
                        &&& final(self)@ == old(self)@
                    },
                    Err(error) => {
                        &&& !old(self)@.boxes.contains_key(*key) || before.closed
                        &&& error == (Error::ChannelClosed {
                            batch_id: key.batch_id,
                            tx_id: key.tx_id,
                            phase: key.phase,
                        })
                        &&& final(self)@ == old(self)@
                    },
                }
            }),
    {
        let closed = Error::ChannelClosed {
            batch_id: key.batch_id,
            tx_id: key.tx_id,
            phase: key.phase,
        };
        if self.is_closed(key) {
            return Err(closed);
        }
        let mut entry = match self.boxes.remove(key) {
            Some(entry) => entry,
            None => {
                assert(self@.boxes =~= old(self)@.boxes);
                return Err(closed);
            },
        };
        if entry.messages.len() == 0 {
            self.put_entry(*key, entry);
            assert(self@.boxes =~= old(self)@.boxes);
            return Ok(None);
        }
        let msg = entry.messages.remove(0);
        self.put_entry(*key, entry);
        proof {
            let before = old(self)@.at(*key);
            assert(before.messages.remove(0) =~= before.messages.skip(1));
            assert(self@.boxes =~= old(self)@.boxes.insert(
                *key,
                MailboxView { messages: before.messages.skip(1), ..before },
            ));
        }
        Ok(Some(msg))
    }

    /// Drops all mailboxes of a batch that is over; answers how many of them no worker
    /// had claimed.
    pub fn cleanup_batch(&mut self, batch_id: BatchId) -> (r: usize)
        ensures
            final(self)@ == old(self)@.without(batch_id),
            r == old(self)@.unclaimed(batch_id).len(),
    {
        let ghost start = self@;
        let keys = self.boxes.key_set();
        let n = keys.len();
        let ghost order = keys.ordered();
        let ghost gone = |key: MailboxKey| key.batch_id == batch_id;
        let ghost lost = |key: MailboxKey| key.batch_id == batch_id && !start.boxes[key].taken;
        let mut unclaimed: usize = 0;
        let mut i: usize = 0;
        assert(start.boxes.dom() =~= order.to_set());
        assert(self@.boxes =~= start.boxes.remove_keys(order.take(0).to_set().filter(gone)));
        assert(order.take(0).to_set().filter(lost) =~= Set::<MailboxKey>::empty());
        while i < n
            invariant
                i <= n,
                n == order.len(),
                order == keys.ordered(),
                collections::ascending::<MailboxKey>(order),
                start.boxes.dom() == order.to_set(),
                start == old(self)@,
                gone == (|key: MailboxKey| key.batch_id == batch_id),
                lost == (|key: MailboxKey| key.batch_id == batch_id && !start.boxes[key].taken),
                self@.ended == start.ended,
                self@.boxes == start.boxes.remove_keys(
                    order.take(i as int).to_set().filter(gone),
                ),
                order.take(i as int).to_set().filter(lost).finite(),
                unclaimed == order.take(i as int).to_set().filter(lost).len(),
                unclaimed <= i,
            decreases n - i,
        {
            let key = *keys.at(i);
            let ghost seen = order.take(i as int).to_set();
            proof {
                collections::lemma_take_to_set(order, i as int);
                if seen.contains(key) {
                    let m = choose|m: int| 0 <= m < i && order.take(i as int)[m] == key;
                    assert(<MailboxKey as SortKey>::before(order[m], order[i as int]));
                }
                assert(order.to_set().contains(key));
                assert(start.boxes.contains_key(key));
                assert(!seen.filter(lost).contains(key));
                assert(self@.boxes.contains_key(key));
                assert(self.boxes@.contains_key(key));
                assert(self@.boxes[key] == start.boxes[key]);
                assert(self.boxes@[key]@ == start.boxes[key]);
            }
            let ghost before = self@.boxes;
            if key.batch_id == batch_id {
                match self.boxes.remove(&key) {
                    Some(entry) => {
                        assert(entry@ == start.boxes[key]);
                        if !entry.taken {
                            assert(order.take(i + 1).to_set().filter(lost) =~= seen.filter(
                                lost,
                            ).insert(key));
                            unclaimed += 1;
                        } else {
                            assert(order.take(i + 1).to_set().filter(lost) =~= seen.filter(lost));
                        }
                    },
                    None => {},
                }
                proof {
                    assert(self@.boxes =~= before.remove(key));
                    assert(order.take(i + 1).to_set().filter(gone) =~= seen.filter(gone).insert(
                        key,
                    ));
                }
            } else {
                assert(order.take(i + 1).to_set().filter(lost) =~= seen.filter(lost));
                assert(order.take(i + 1).to_set().filter(gone) =~= seen.filter(gone));
            }
            assert(self@.boxes =~= start.boxes.remove_keys(
                order.take(i + 1).to_set().filter(gone),
            ));
            i += 1;
        }
        proof {
            assert(order.take(i as int) =~= order);
            assert(order.to_set().filter(lost) =~= start.unclaimed(batch_id));
            assert(order.to_set().filter(gone) =~= start.boxes.dom().filter(
                |key: MailboxKey| key.batch_id == batch_id,
            ));
        }
        let _ = self.ended.insert(batch_id);
        unclaimed
    }
}

impl Default for ReadResultMailboxRegistry {
    fn default() -> (r: Self)
        ensures
            r@ == (MailboxesView { boxes: Map::empty(), ended: Set::empty() }),
    {
        ReadResultMailboxRegistry::new()
    }
}

/// What a client gets to know of a transaction.
#[derive(Clone, Copy, Debug, PartialEq, Eq, Structural)]
pub enum ClientTxResult {
    Ready(TxResult),
    NotResponsible,
}

/// What is known of a transaction. A transaction that nobody has asked about or reported
/// is pending too.
#[derive(Clone, Copy, Debug, PartialEq, Eq, Structural)]
pub enum ClientTxResultState {
    Pending,
    Ready(TxResult),
    NotResponsible,
}

/// What this shard knows of the results of transactions.
pub struct TxResultRegistry {
    states: OrdMap<TxId, ClientTxResultState>,
}

impl View for TxResultRegistry {
    type V = Map<TxId, ClientTxResultState>;

    closed spec fn view(&self) -> Map<TxId, ClientTxResultState> {
        self.states@
    }
}

/// `states` with the transaction known, as pending where it was not known.
pub open spec fn with_known(
    states: Map<TxId, ClientTxResultState>,
    tx_id: TxId,
) -> Map<TxId, ClientTxResultState> {
    if states.contains_key(tx_id) {
        states
    } else {
        states.insert(tx_id, ClientTxResultState::Pending)
    }
}

impl TxResultRegistry {
    pub fn new() -> (r: Self)
        ensures
            r@ == Map::<TxId, ClientTxResultState>::empty(),
    {
        TxResultRegistry { states: OrdMap::new() }
    }

    /// Makes a transaction known; what is known of it stays.
    pub fn ensure_pending(&mut self, tx_id: TxId)
        ensures
            final(self)@ == with_known(old(self)@, tx_id),
    {
        if !self.states.contains_key(&tx_id) {
            let _ = self.states.insert(tx_id, ClientTxResultState::Pending);
        }
    }

    pub fn mark_ready(&mut self, tx_id: TxId, result: TxResult)
        ensures
            final(self)@ == old(self)@.insert(tx_id, ClientTxResultState::Ready(result)),
    {
        let _ = self.states.insert(tx_id, ClientTxResultState::Ready(result));
    }

    pub fn mark_not_responsible(&mut self, tx_id: TxId)
        ensures
            final(self)@ == old(self)@.insert(tx_id, ClientTxResultState::NotResponsible),
    {
        let _ = self.states.insert(tx_id, ClientTxResultState::NotResponsible);
    }

    /// What a client is told of a transaction; nothing while it is pending.
    pub fn wait(&mut self, tx_id: TxId) -> (r: Option<ClientTxResult>)
        ensures
            final(self)@ == with_known(old(self)@, tx_id),
            match final(self)@[tx_id] {
                ClientTxResultState::Pending => r is None,
                ClientTxResultState::Ready(result) => r == Some(ClientTxResult::Ready(result)),
                ClientTxResultState::NotResponsible => r == Some(ClientTxResult::NotResponsible),
            },
    {
        self.ensure_pending(tx_id);
        match self.states.get(&tx_id) {
            Some(ClientTxResultState::Ready(result)) => Some(ClientTxResult::Ready(*result)),
            Some(ClientTxResultState::NotResponsible) => Some(ClientTxResult::NotResponsible),
            _ => None,
        }
    }
}

/// A result that is known stays known until another is marked, whoever asks.
pub proof fn lemma_result_stays(
    states: Map<TxId, ClientTxResultState>,
    tx_id: TxId,
    result: TxResult,
    other: TxId,
)
    ensures
        with_known(
            states.insert(tx_id, ClientTxResultState::Ready(result)),
            other,
        )[tx_id] == ClientTxResultState::Ready(result),
{
}

impl Default for TxResultRegistry {
    fn default() -> (r: Self)
        ensures
            r@ == Map::<TxId, ClientTxResultState>::empty(),
    {
        TxResultRegistry::new()
    }
}

} // verus!
