//! Waiting for locks, and gathering the reads of a transaction from the shards.

use crate::collections;
use crate::collections::{OrdMap, OrdSet, SortKey};
use crate::error::{BatchFault, Error, LockFault, Result, SpeculationFault};
use crate::lock::LockGrant;
use crate::model::{
    BatchId, Key, LocalReadStatus, OrderedTx, ReadPhase, ReadValue, ShardId, TxId,
};
use crate::path::Path;
use crate::router;
use crate::router::ShardLayout;
use crate::state::Reads;
use vstd::prelude::*;

verus! {

/// What one shard read for a transaction.
#[derive(Debug)]
pub struct LocalReadResult {
    pub batch_id: BatchId,
    pub tx_id: TxId,
    pub phase: ReadPhase,
    pub from_shard: ShardId,
    pub status: LocalReadStatus,
    pub reads: OrdMap<Key, ReadValue>,
}

impl Clone for LocalReadResult {
    fn clone(&self) -> (r: Self)
        ensures
            r.batch_id == self.batch_id,
            r.tx_id == self.tx_id,
            r.phase == self.phase,
            r.from_shard == self.from_shard,
            r.status == self.status,
            r.reads@ == self.reads@,
    {
        LocalReadResult {
            batch_id: self.batch_id,
            tx_id: self.tx_id,
            phase: self.phase,
            from_shard: self.from_shard,
            status: self.status,
            reads: self.reads.clone(),
        }
    }
}

/// A transaction that waits for the locks of its local keys.
pub struct LockWait {
    tx_id: TxId,
    keys: OrdSet<Key>,
    granted: OrdSet<Key>,
}

#[verifier::ext_equal]
pub struct LockWaitView {
    pub tx_id: TxId,
    pub keys: Set<Path>,
    pub granted: Set<Path>,
}

impl View for LockWait {
    type V = LockWaitView;

    closed spec fn view(&self) -> LockWaitView {
        LockWaitView { tx_id: self.tx_id, keys: self.keys@, granted: self.granted@ }
    }
}

impl LockWait {
    pub fn new(tx_id: TxId, keys: &OrdSet<Key>) -> (r: Self)
        ensures
            r@ == (LockWaitView { tx_id, keys: keys@, granted: Set::empty() }),
    {
        LockWait { tx_id, keys: keys.clone(), granted: OrdSet::new() }
    }

    /// Notes a grant. One for another key, or a second one for a key, breaks the
    /// order of locks.
    pub fn on_grant(&mut self, grant: &LockGrant) -> (r: Result<()>)
        ensures
            match r {
                Ok(_) => {
                    &&& old(self)@.keys.contains(grant@)
                    &&& !old(self)@.granted.contains(grant@)
                    &&& final(self)@ == (LockWaitView {
                        granted: old(self)@.granted.insert(grant@),
                        ..old(self)@
                    })
                },
                Err(Error::LockInvariant(LockFault::UnexpectedGrant { tx_id, key })) => {
                    &&& !old(self)@.keys.contains(grant@)
                    &&& tx_id == old(self)@.tx_id && key@ == grant@
                    &&& final(self)@ == old(self)@
                },
                Err(Error::LockInvariant(LockFault::DuplicateGrant { tx_id, key })) => {
                    &&& old(self)@.keys.contains(grant@)
                    &&& old(self)@.granted.contains(grant@)
                    &&& tx_id == old(self)@.tx_id && key@ == grant@
                    &&& final(self)@ == old(self)@
                },
                Err(_) => false,
            },
    {
        if !self.keys.contains(&grant.key) {
            return Err(
                Error::LockInvariant(
                    LockFault::UnexpectedGrant { tx_id: self.tx_id, key: grant.key.clone() },
                ),
            );
        }
        if self.granted.contains(&grant.key) {
            return Err(
                Error::LockInvariant(
                    LockFault::DuplicateGrant { tx_id: self.tx_id, key: grant.key.clone() },
                ),
            );
        }
        let _ = self.granted.insert(grant.key.clone());
        Ok(())
    }

    /// Whether every lock was granted.
    pub fn is_done(&self) -> (r: bool)
        ensures
            r == self@.keys.subset_of(self@.granted),
    {
        self.keys.is_subset(&self.granted)
    }
}

/// The reads of a transaction while they come in.
#[verifier::ext_equal]
pub struct CollectorView {
    pub phase: ReadPhase,
    pub batch_id: BatchId,
    pub tx_id: TxId,
    pub shard_count: u64,
    pub read_set: Set<Path>,
    pub expected: Set<ShardId>,
    pub received: Set<ShardId>,
    pub full_reads: Reads,
}

impl CollectorView {
    /// The message is about this transaction and phase.
    pub open spec fn is_routed(self, msg: LocalReadResult) -> bool {
        msg.batch_id == self.batch_id && msg.tx_id == self.tx_id && msg.phase == self.phase
    }

    pub open spec fn is_new_source(self, msg: LocalReadResult) -> bool {
        self.expected.contains(msg.from_shard) && !self.received.contains(msg.from_shard)
    }

    /// What is looked at before the source of the message: under locks the status is
    /// looked at first, otherwise last.
    pub open spec fn reaches_source(self, msg: LocalReadResult) -> bool {
        self.is_routed(msg) && (self.phase == ReadPhase::Calvin ==> msg.status
            == LocalReadStatus::Success)
    }

    /// What is looked at before the status of the message.
    pub open spec fn reaches_status(self, msg: LocalReadResult) -> bool {
        self.is_routed(msg) && (self.phase != ReadPhase::Calvin ==> self.is_new_source(msg))
    }

    /// The message carries what was asked of its shard.
    pub open spec fn has_keys(self, msg: LocalReadResult) -> bool {
        msg.reads@.dom() == router::local_part(self.shard_count, self.read_set, msg.from_shard)
    }

    /// Everything but the keys is in order.
    pub open spec fn reaches_keys(self, msg: LocalReadResult) -> bool {
        self.is_routed(msg) && self.is_new_source(msg) && msg.status == LocalReadStatus::Success
    }

    /// No key of the message is known already.
    pub open spec fn keys_new(self, msg: LocalReadResult) -> bool {
        msg.reads@.dom().disjoint(self.full_reads.dom())
    }

    /// The phase is one of speculation.
    pub open spec fn speculates(self) -> bool {
        self.phase == ReadPhase::SccEffect || self.phase == ReadPhase::SccCondition
    }

    pub open spec fn accepts(self, msg: LocalReadResult) -> bool {
        self.reaches_keys(msg) && self.has_keys(msg) && self.keys_new(msg)
    }

    pub open spec fn with(self, msg: LocalReadResult) -> CollectorView {
        CollectorView {
            received: self.received.insert(msg.from_shard),
            full_reads: self.full_reads.union_prefer_right(msg.reads@),
            ..self
        }
    }

    /// Why a message is refused.
    pub open spec fn refusal(self, msg: LocalReadResult, error: Error) -> bool {
        match error {
            Error::InvalidBatch(
                BatchFault::ReadMisrouted { tx_id, phase, batch_id, got_batch, got_tx, got_phase },
            ) => {
                &&& !self.is_routed(msg)
                &&& tx_id == self.tx_id && phase == self.phase && batch_id == self.batch_id
                &&& got_batch == msg.batch_id && got_tx == msg.tx_id && got_phase == msg.phase
            },
            Error::InvalidBatch(BatchFault::ReadNotServed { tx_id, phase, from_shard, status }) => {
                &&& self.reaches_status(msg)
                &&& msg.status != LocalReadStatus::Success
                &&& !self.speculates()
                &&& tx_id == self.tx_id && phase == self.phase
                &&& from_shard == msg.from_shard && status == msg.status
            },
            Error::SpeculationFailed(
                SpeculationFault::RemoteFailure { tx_id, phase, from_shard },
            ) => {
                &&& self.reaches_status(msg)
                &&& msg.status == LocalReadStatus::SpeculationFailed
                &&& self.speculates()
                &&& tx_id == self.tx_id && phase == self.phase && from_shard == msg.from_shard
            },
            Error::InvalidBatch(BatchFault::ReadUnexpected { tx_id, phase, from_shard }) => {
                &&& self.reaches_source(msg)
                &&& !self.expected.contains(msg.from_shard)
                &&& tx_id == self.tx_id && phase == self.phase && from_shard == msg.from_shard
            },
            Error::InvalidBatch(BatchFault::ReadTwice { tx_id, phase, from_shard }) => {
                &&& self.reaches_source(msg)
                &&& self.expected.contains(msg.from_shard)
                &&& self.received.contains(msg.from_shard)
                &&& tx_id == self.tx_id && phase == self.phase && from_shard == msg.from_shard
            },
            Error::InvalidBatch(
                BatchFault::ReadKeysMismatch { tx_id, phase, from_shard, expected, found },
            ) => {
                &&& self.reaches_keys(msg)
                &&& !self.has_keys(msg)
                &&& tx_id == self.tx_id && phase == self.phase && from_shard == msg.from_shard
                &&& expected@ == router::local_part(
                    self.shard_count,
                    self.read_set,
                    msg.from_shard,
                )
                &&& found@ == msg.reads@.dom()
            },
            Error::InvalidBatch(BatchFault::ReadKeyTwice { tx_id, phase, key }) => {
                &&& self.reaches_keys(msg)
                &&& self.has_keys(msg)
                &&& tx_id == self.tx_id && phase == self.phase
                &&& msg.reads@.contains_key(key@) && self.full_reads.contains_key(key@)
                &&& forall|k: Path| #[trigger]
                    msg.reads@.contains_key(k) && self.full_reads.contains_key(k) ==> k == key@
                        || Key::before(key@, k)
            },
            _ => false,
        }
    }
}

/// Gathers the reads of a transaction: those of this shard, and one message from
/// every other shard that holds keys it reads.
pub struct ReadCollector {
    phase: ReadPhase,
    batch_id: BatchId,
    tx_id: TxId,
    layout: ShardLayout,
    read_set: OrdSet<Key>,
    expected: OrdSet<ShardId>,
    received: OrdSet<ShardId>,
    full_reads: OrdMap<Key, ReadValue>,
}

impl View for ReadCollector {
    type V = CollectorView;

    closed spec fn view(&self) -> CollectorView {
        CollectorView {
            phase: self.phase,
            batch_id: self.batch_id,
            tx_id: self.tx_id,
            shard_count: self.layout.shard_count,
            read_set: self.read_set@,
            expected: self.expected@,
            received: self.received@,
            full_reads: self.full_reads@,
        }
    }
}

/// The first key of `incoming` that `known` holds too.
fn first_common_key(incoming: &OrdMap<Key, ReadValue>, known: &OrdMap<Key, ReadValue>) -> (r:
    Option<Key>)
    ensures
        match r {
            Some(key) => {
                &&& incoming@.contains_key(key@) && known@.contains_key(key@)
                &&& forall|k: Path| #[trigger]
                    incoming@.contains_key(k) && known@.contains_key(k) ==> k == key@
                        || Key::before(key@, k)
            },
            None => incoming@.dom().disjoint(known@.dom()),
        },
{
    let n = incoming.len();
    let ghost keys = incoming.ordered();
    let mut i: usize = 0;
    while i < n
        invariant
            i <= n,
            n == keys.len(),
            keys == incoming.ordered(),
            collections::ascending::<Key>(keys),
            incoming@.dom() == keys.to_set(),
            forall|j: int| 0 <= j < i ==> !known@.contains_key(#[trigger] keys[j]),
        decreases n - i,
    {
        let key = incoming.key_at(i);
        if known.contains_key(key) {
            proof {
                assert forall|k: Path| #[trigger]
                    incoming@.contains_key(k) && known@.contains_key(k) implies k == key@
                    || Key::before(key@, k) by {
                    assert(keys.to_set().contains(k));
                    let j = choose|j: int| 0 <= j < keys.len() && keys[j] == k;
                    if j > i {
                        assert(Key::before(keys[i as int], keys[j]));
                    }
                }
            }
            return Some(key.clone());
        }
        i += 1;
    }
    proof {
        assert forall|k: Path| !(incoming@.dom().contains(k) && known@.dom().contains(k)) by {
            if incoming@.dom().contains(k) {
                assert(keys.to_set().contains(k));
                let j = choose|j: int| 0 <= j < keys.len() && keys[j] == k;
                assert(!known@.contains_key(keys[j]));
            }
        }
        assert(incoming@.dom().disjoint(known@.dom()));
    }
    None
}

/// Adds the bindings of `incoming` to `known`.
fn add_reads(known: &mut OrdMap<Key, ReadValue>, incoming: &OrdMap<Key, ReadValue>)
    ensures
        final(known)@ == old(known)@.union_prefer_right(incoming@),
{
    let n = incoming.len();
    let ghost keys = incoming.ordered();
    let ghost start = known@;
    let mut i: usize = 0;
    assert(known@ =~= start.union_prefer_right(incoming@.restrict(keys.take(0).to_set())));
    while i < n
        invariant
            i <= n,
            n == keys.len(),
            keys == incoming.ordered(),
            incoming@.dom() == keys.to_set(),
            start == old(known)@,
            known@ == start.union_prefer_right(incoming@.restrict(keys.take(i as int).to_set())),
        decreases n - i,
    {
        let key = incoming.key_at(i);
        let value = *incoming.value_at(i);
        let _ = known.insert(key.clone(), value);
        proof {
            collections::lemma_take_to_set(keys, i as int);
        }
        i += 1;
        assert(known@ =~= start.union_prefer_right(
            incoming@.restrict(keys.take(i as int).to_set()),
        ));
    }
    proof {
        assert(keys.take(i as int) =~= keys);
        assert(incoming@.restrict(keys.to_set()) =~= incoming@);
    }
}

impl ReadCollector {
    /// The layout has a shard at all.
    #[verifier::type_invariant]
    pub closed spec fn inv(self) -> bool {
        self.layout.wf()
    }

    /// Starts with the reads of shard `shard_id` and waits for the other `sources`.
    pub fn new(
        phase: ReadPhase,
        batch_id: BatchId,
        tx: &OrderedTx,
        layout: ShardLayout,
        shard_id: ShardId,
        sources: &OrdSet<ShardId>,
        local_reads: OrdMap<Key, ReadValue>,
    ) -> (r: Self)
        requires
            layout.wf(),
        ensures
            r@ == (CollectorView {
                phase,
                batch_id,
                tx_id: tx@.tx_id,
                shard_count: layout.shard_count,
                read_set: tx@.read_set,
                expected: sources@.remove(shard_id),
                received: Set::empty(),
                full_reads: local_reads@,
            }),
    {
        let mut expected = sources.clone();
        let _ = expected.remove(&shard_id);
        ReadCollector {
            phase,
            batch_id,
            tx_id: tx.tx_id,
            layout,
            read_set: tx.read_set.clone(),
            expected,
            received: OrdSet::new(),
            full_reads: local_reads,
        }
    }

    fn check_source(&self, msg: &LocalReadResult) -> (r: Result<()>)
        requires
            self@.reaches_source(*msg),
        ensures
            match r {
                Ok(_) => self@.is_new_source(*msg),
                Err(error) => self@.refusal(*msg, error),
            },
    {
        if !self.expected.contains(&msg.from_shard) {
            return Err(
                Error::InvalidBatch(
                    BatchFault::ReadUnexpected {
                        tx_id: self.tx_id,
                        phase: self.phase,
                        from_shard: msg.from_shard,
                    },
                ),
            );
        }
        if self.received.contains(&msg.from_shard) {
            return Err(
                Error::InvalidBatch(
                    BatchFault::ReadTwice {
                        tx_id: self.tx_id,
                        phase: self.phase,
                        from_shard: msg.from_shard,
                    },
                ),
            );
        }
        Ok(())
    }

    fn check_status(&self, msg: &LocalReadResult) -> (r: Result<()>)
        requires
            self@.reaches_status(*msg),
        ensures
            match r {
                Ok(_) => msg.status == LocalReadStatus::Success,
                Err(error) => self@.refusal(*msg, error) && msg.status != LocalReadStatus::Success,
            },
    {
        if msg.status == LocalReadStatus::Success {
            return Ok(());
        }
        if self.phase == ReadPhase::SccEffect || self.phase == ReadPhase::SccCondition {
            return Err(
                Error::SpeculationFailed(
                    SpeculationFault::RemoteFailure {
                        tx_id: self.tx_id,
                        phase: self.phase,
                        from_shard: msg.from_shard,
                    },
                ),
            );
        }
        Err(
            Error::InvalidBatch(
                BatchFault::ReadNotServed {
                    tx_id: self.tx_id,
                    phase: self.phase,
                    from_shard: msg.from_shard,
                    status: msg.status,
                },
            ),
        )
    }

    /// Adds the reads of one message, or says why it does not belong here.
    pub fn offer(&mut self, msg: LocalReadResult) -> (r: Result<()>)
        ensures
            match r {
                Ok(_) => old(self)@.accepts(msg) && final(self)@ == old(self)@.with(msg),
                Err(error) => {
                    &&& !old(self)@.accepts(msg)
                    &&& old(self)@.refusal(msg, error)
                    &&& final(self)@ == old(self)@
                },
            },
    {
        proof {
            use_type_invariant(&*self);
        }
        if msg.batch_id != self.batch_id || msg.tx_id != self.tx_id || msg.phase != self.phase {
            return Err(
                Error::InvalidBatch(
                    BatchFault::ReadMisrouted {
                        tx_id: self.tx_id,
                        phase: self.phase,
                        batch_id: self.batch_id,
                        got_batch: msg.batch_id,
                        got_tx: msg.tx_id,
                        got_phase: msg.phase,
                    },
                ),
            );
        }
        if self.phase == ReadPhase::Calvin {
            match self.check_status(&msg) {
                Ok(_) => {},
                Err(error) => return Err(error),
            }
        }
        match self.check_source(&msg) {
            Ok(_) => {},
            Err(error) => return Err(error),
        }
        match self.check_status(&msg) {
            Ok(_) => {},
            Err(error) => return Err(error),
        }
        let expected_keys = self.layout.local_keys_of(&self.read_set, msg.from_shard);
        let actual_keys = msg.reads.key_set();
        if !actual_keys.same_as(&expected_keys) {
            return Err(
                Error::InvalidBatch(
                    BatchFault::ReadKeysMismatch {
                        tx_id: self.tx_id,
                        phase: self.phase,
                        from_shard: msg.from_shard,
                        expected: expected_keys,
                        found: actual_keys,
                    },
                ),
            );
        }
        match first_common_key(&msg.reads, &self.full_reads) {
            Some(key) => {
                assert(msg.reads@.dom().contains(key@) && self.full_reads@.dom().contains(key@));
                return Err(
                    Error::InvalidBatch(
                        BatchFault::ReadKeyTwice { tx_id: self.tx_id, phase: self.phase, key },
                    ),
                );
            },
            None => {},
        }
        let mut full_reads: OrdMap<Key, ReadValue> = OrdMap::new();
        std::mem::swap(&mut full_reads, &mut self.full_reads);
        add_reads(&mut full_reads, &msg.reads);
        self.full_reads = full_reads;
        let mut received: OrdSet<ShardId> = OrdSet::new();
        std::mem::swap(&mut received, &mut self.received);
        let _ = received.insert(msg.from_shard);
        self.received = received;
        Ok(())
    }

    /// Whether every expected shard has sent its reads.
    pub fn is_done(&self) -> (r: bool)
        ensures
            r == self@.expected.subset_of(self@.received),
    {
        self.expected.is_subset(&self.received)
    }

    /// The gathered reads and the number of messages, once these are the reads of
    /// all keys.
    pub fn finish(self) -> (r: Result<(OrdMap<Key, ReadValue>, usize)>)
        ensures
            match r {
                Ok((reads, count)) => {
                    &&& self@.full_reads.dom() == self@.read_set
                    &&& reads@ == self@.full_reads
                    &&& count == self@.received.len()
                },
                Err(
                    Error::InvalidBatch(
                        BatchFault::FullReadsMismatch { tx_id, phase, expected, found },
                    ),
                ) => {
                    &&& self@.full_reads.dom() != self@.read_set
                    &&& tx_id == self@.tx_id && phase == self@.phase
                    &&& expected@ == self@.read_set
                    &&& found@ == self@.full_reads.dom()
                },
                Err(_) => false,
            },
    {
        let full_keys = self.full_reads.key_set();
        if !full_keys.same_as(&self.read_set) {
            return Err(
                Error::InvalidBatch(
                    BatchFault::FullReadsMismatch {
                        tx_id: self.tx_id,
                        phase: self.phase,
                        expected: self.read_set.clone(),
                        found: full_keys,
                    },
                ),
            );
        }
        let count = self.received.len();
        Ok((self.full_reads.clone(), count))
    }
}

} // verus!
