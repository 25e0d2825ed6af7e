//! Calls on the mailboxes, on what is known of results, and on the gathering of reads.

use crate::collections::OrdMap;
use crate::engine::reads::{LocalReadResult, ReadCollector};
use crate::engine::registry::{
    ClientTxResult, MailboxKey, ReadResultMailboxRegistry, TxResultRegistry,
};
use crate::error::{BatchFault, Error, Result};
use crate::model::{BatchId, Key, LocalReadStatus, ReadPhase, ReadValue, TxId, TxResult};
use crate::path::Path;
use crate::router;
use vstd::prelude::*;

verus! {

/// The mailbox that a message names.
pub open spec fn addressed(msg: LocalReadResult) -> MailboxKey {
    MailboxKey { batch_id: msg.batch_id, tx_id: msg.tx_id, phase: msg.phase }
}

/// A message that is put into a mailbox comes out after all that were put there before
/// it: the next one out is the oldest.
pub proof fn lemma_oldest_first(
    before: &mut ReadResultMailboxRegistry,
    msg: LocalReadResult,
    put: Result<()>,
    after: &mut ReadResultMailboxRegistry,
    key: &MailboxKey,
    next: Result<Option<LocalReadResult>>,
)
    requires
        call_ensures(ReadResultMailboxRegistry::route, (before, msg), put),
        put is Ok,
        *key == addressed(msg),
        old(after)@ == final(before)@,
        call_ensures(ReadResultMailboxRegistry::next, (after, key), next),
    ensures
        next matches Ok(Some(m)) && m == if old(before)@.boxes.contains_key(*key)
            && old(before)@.boxes[*key].messages.len() > 0 {
            old(before)@.boxes[*key].messages[0]
        } else {
            msg
        },
        ({
            let held = if old(before)@.boxes.contains_key(*key) {
                old(before)@.boxes[*key].messages
            } else {
                Seq::empty()
            };
            seq![next->Ok_0->0] + final(after)@.boxes[*key].messages == held.push(msg)
        }),
{
    let held = if old(before)@.boxes.contains_key(*key) {
        old(before)@.boxes[*key].messages
    } else {
        Seq::empty()
    };
    assert(seq![next->Ok_0->0] + final(after)@.boxes[*key].messages =~= held.push(msg));
}

/// A message goes to the mailbox that it names, and to no other. It is refused if and only
/// if the worker there has ended, or if it is one under locks and its batch is over.
pub proof fn lemma_route_call(
    mail: &mut ReadResultMailboxRegistry,
    msg: LocalReadResult,
    r: Result<()>,
    other: MailboxKey,
)
    requires
        call_ensures(ReadResultMailboxRegistry::route, (mail, msg), r),
        other != addressed(msg),
    ensures
        r is Err <==> (old(mail)@.boxes.contains_key(addressed(msg)) && old(mail)@.boxes[addressed(
            msg,
        )].closed) || ((msg.phase == ReadPhase::Calvin || msg.phase == ReadPhase::AriaFallback)
            && old(mail)@.ended.contains(msg.batch_id)),
        r matches Err(error) ==> error == (Error::ChannelClosed {
            batch_id: msg.batch_id,
            tx_id: msg.tx_id,
            phase: msg.phase,
        }),
        r is Err ==> final(mail)@ == old(mail)@,
        final(mail)@.boxes.contains_key(other) <==> old(mail)@.boxes.contains_key(other),
        final(mail)@.boxes.contains_key(other) ==> final(mail)@.boxes[other]
            == old(mail)@.boxes[other],
        final(mail)@.ended == old(mail)@.ended,
{
}

/// A worker gets its mailbox once: it finds what came before it, and a second one is
/// refused.
pub proof fn lemma_one_worker(
    mail: &mut ReadResultMailboxRegistry,
    batch_id: BatchId,
    tx_id: TxId,
    phase: ReadPhase,
    first: Result<MailboxKey>,
    again: &mut ReadResultMailboxRegistry,
    second: Result<MailboxKey>,
)
    requires
        call_ensures(ReadResultMailboxRegistry::receiver, (mail, batch_id, tx_id, phase), first),
        old(again)@ == final(mail)@,
        call_ensures(ReadResultMailboxRegistry::receiver, (again, batch_id, tx_id, phase), second),
    ensures
        ({
            let key = MailboxKey { batch_id, tx_id, phase };
            &&& first matches Ok(k) ==> k == key
            &&& first is Ok ==> final(mail)@.boxes.contains_key(key)
            &&& first is Ok && old(mail)@.boxes.contains_key(key)
                ==> final(mail)@.boxes[key].messages == old(mail)@.boxes[key].messages
            &&& first is Ok && !old(mail)@.boxes.contains_key(key)
                ==> final(mail)@.boxes[key].messages.len() == 0
            &&& !old(mail)@.boxes.contains_key(key) ==> first is Ok
            &&& second matches Err(error) && error == Error::InvalidBatch(
                BatchFault::MailboxTaken { batch_id, tx_id, phase },
            )
        }),
{
}

/// Once a worker has ended, nothing comes into its mailbox and nothing out; it is one that
/// was taken.
pub proof fn lemma_closed_stays_closed(
    mail: &mut ReadResultMailboxRegistry,
    key: &MailboxKey,
    after: &mut ReadResultMailboxRegistry,
    msg: LocalReadResult,
    put: Result<()>,
    last: &mut ReadResultMailboxRegistry,
    next: Result<Option<LocalReadResult>>,
    other: MailboxKey,
)
    requires
        call_ensures(ReadResultMailboxRegistry::close, (mail, key), ()),
        old(mail)@.boxes.contains_key(*key),
        *key == addressed(msg),
        old(after)@ == final(mail)@,
        call_ensures(ReadResultMailboxRegistry::route, (after, msg), put),
        old(last)@ == final(after)@,
        call_ensures(ReadResultMailboxRegistry::next, (last, key), next),
        other != *key,
    ensures
        put is Err,
        next is Err,
        final(mail)@.boxes.contains_key(*key) && final(mail)@.boxes[*key].taken,
        final(mail)@.boxes[*key].messages.len() == 0,
        final(mail)@.boxes.contains_key(other) <==> old(mail)@.boxes.contains_key(other),
        final(mail)@.boxes.contains_key(other) ==> final(mail)@.boxes[other]
            == old(mail)@.boxes[other],
        final(mail)@.ended == old(mail)@.ended,
{
}

/// When a batch is over its mailboxes are gone, and those of all others are as they were.
/// What is told is how many of them no worker ever took.
pub proof fn lemma_cleanup_call(
    mail: &mut ReadResultMailboxRegistry,
    batch_id: BatchId,
    unclaimed: usize,
    key: MailboxKey,
    id: BatchId,
)
    requires
        call_ensures(ReadResultMailboxRegistry::cleanup_batch, (mail, batch_id), unclaimed),
    ensures
        final(mail)@.boxes.contains_key(key) <==> old(mail)@.boxes.contains_key(key)
            && key.batch_id != batch_id,
        final(mail)@.boxes.contains_key(key) ==> final(mail)@.boxes[key] == old(mail)@.boxes[key],
        final(mail)@.ended.contains(id) <==> old(mail)@.ended.contains(id) || id == batch_id,
        unclaimed == Set::new(
            |k: MailboxKey| old(mail)@.boxes.contains_key(k) && k.batch_id == batch_id
                && !old(mail)@.boxes[k].taken,
        ).len(),
{
    let lost = Set::new(
        |k: MailboxKey| old(mail)@.boxes.contains_key(k) && k.batch_id == batch_id
            && !old(mail)@.boxes[k].taken,
    );
    assert(old(mail)@.unclaimed(batch_id) =~= lost);
}

/// Who asks for a result that was marked gets it; who asks for one that nobody marked is
/// told nothing yet; what is marked of one transaction changes nothing of another.
pub proof fn lemma_result_call(
    known: &mut TxResultRegistry,
    tx_id: TxId,
    result: TxResult,
    asked: &mut TxResultRegistry,
    other: TxId,
    answer: Option<ClientTxResult>,
    before: &mut TxResultRegistry,
    earlier: Option<ClientTxResult>,
)
    requires
        old(before)@ == old(known)@,
        call_ensures(TxResultRegistry::wait, (before, other), earlier),
        call_ensures(TxResultRegistry::mark_ready, (known, tx_id, result), ()),
        old(asked)@ == final(known)@,
        call_ensures(TxResultRegistry::wait, (asked, other), answer),
    ensures
        other == tx_id ==> answer == Some(ClientTxResult::Ready(result)),
        other != tx_id ==> answer == earlier,
        !old(known)@.contains_key(other) ==> earlier is None,
{
}

/// Who asks for the result of a transaction that another shard answers for is told so.
pub proof fn lemma_not_responsible_call(
    known: &mut TxResultRegistry,
    tx_id: TxId,
    asked: &mut TxResultRegistry,
    other: TxId,
    answer: Option<ClientTxResult>,
    before: &mut TxResultRegistry,
    earlier: Option<ClientTxResult>,
)
    requires
        old(before)@ == old(known)@,
        call_ensures(TxResultRegistry::wait, (before, other), earlier),
        call_ensures(TxResultRegistry::mark_not_responsible, (known, tx_id), ()),
        old(asked)@ == final(known)@,
        call_ensures(TxResultRegistry::wait, (asked, other), answer),
    ensures
        other == tx_id ==> answer == Some(ClientTxResult::NotResponsible),
        other != tx_id ==> answer == earlier,
{
}

/// To ask, or to make a transaction known, changes no answer.
pub proof fn lemma_asking_call(
    known: &mut TxResultRegistry,
    tx_id: TxId,
    asked: &mut TxResultRegistry,
    other: TxId,
    answer: Option<ClientTxResult>,
    before: &mut TxResultRegistry,
    earlier: Option<ClientTxResult>,
    first: Option<ClientTxResult>,
)
    requires
        old(before)@ == old(known)@,
        call_ensures(TxResultRegistry::wait, (before, other), earlier),
        call_ensures(TxResultRegistry::ensure_pending, (known, tx_id), ()) || call_ensures(
            TxResultRegistry::wait,
            (known, tx_id),
            first,
        ),
        old(asked)@ == final(known)@,
        call_ensures(TxResultRegistry::wait, (asked, other), answer),
    ensures
        answer == earlier,
{
}

/// A message with reads is taken if and only if it is about this transaction, comes from a
/// shard that is waited for and has not sent yet, reports success, and brings exactly the
/// keys asked of that shard, none of them known already. What it says is then known, and
/// nothing else has changed.
pub proof fn lemma_offer_call(
    reads: &mut ReadCollector,
    msg: LocalReadResult,
    r: Result<()>,
    key: Path,
)
    requires
        call_ensures(ReadCollector::offer, (reads, msg), r),
    ensures
        r is Ok <==> {
            let v = old(reads)@;
            &&& msg.batch_id == v.batch_id && msg.tx_id == v.tx_id && msg.phase == v.phase
            &&& v.expected.contains(msg.from_shard) && !v.received.contains(msg.from_shard)
            &&& msg.status == LocalReadStatus::Success
            &&& forall|k: Path| #[trigger]
                msg.reads@.contains_key(k) <==> v.read_set.contains(k) && router::shard_of(
                    v.shard_count,
                    k,
                ) == msg.from_shard
            &&& forall|k: Path| #[trigger]
                msg.reads@.contains_key(k) ==> !v.full_reads.contains_key(k)
        },
        r is Err ==> final(reads)@ == old(reads)@,
        r is Ok ==> {
            &&& final(reads)@.received == old(reads)@.received.insert(msg.from_shard)
            &&& msg.reads@.contains_key(key) ==> final(reads)@.full_reads.contains_key(key)
                && final(reads)@.full_reads[key] == msg.reads@[key]
            &&& !msg.reads@.contains_key(key) ==> (final(reads)@.full_reads.contains_key(key)
                <==> old(reads)@.full_reads.contains_key(key))
            &&& !msg.reads@.contains_key(key) && old(reads)@.full_reads.contains_key(key)
                ==> final(reads)@.full_reads[key] == old(reads)@.full_reads[key]
            &&& final(reads)@.read_set == old(reads)@.read_set
            &&& final(reads)@.expected == old(reads)@.expected
        },
        r matches Err(Error::SpeculationFailed(_)) ==> msg.status
            == LocalReadStatus::SpeculationFailed && (msg.phase == ReadPhase::SccEffect || msg.phase
            == ReadPhase::SccCondition),
{
    let v = old(reads)@;
    let asked = router::local_part(v.shard_count, v.read_set, msg.from_shard);
    if forall|k: Path| #[trigger]
        msg.reads@.contains_key(k) <==> v.read_set.contains(k) && router::shard_of(
            v.shard_count,
            k,
        ) == msg.from_shard {
        assert(msg.reads@.dom() =~= asked);
    }
    if v.has_keys(msg) {
        assert forall|k: Path| #[trigger]
            msg.reads@.contains_key(k) <==> v.read_set.contains(k) && router::shard_of(
                v.shard_count,
                k,
            ) == msg.from_shard by {
            assert(msg.reads@.dom().contains(k) == asked.contains(k));
        }
    }
    if forall|k: Path| #[trigger]
        msg.reads@.contains_key(k) ==> !v.full_reads.contains_key(k) {
        assert(msg.reads@.dom().disjoint(v.full_reads.dom())) by {
            assert forall|k: Path| msg.reads@.dom().contains(k) implies !v.full_reads.dom().contains(
                k,
            ) by {
                assert(msg.reads@.contains_key(k));
            }
        }
    }
    if v.keys_new(msg) {
        assert forall|k: Path| #[trigger] msg.reads@.contains_key(k) implies !v.full_reads.contains_key(
            k,
        ) by {
            assert(msg.reads@.dom().contains(k));
        }
    }
}

/// The gathering is over when all who are waited for have sent. What comes out is what was
/// gathered, provided that these are the reads of all keys, and the number of messages.
pub proof fn lemma_finish_call(
    reads: ReadCollector,
    done: bool,
    r: Result<(OrdMap<Key, ReadValue>, usize)>,
)
    requires
        call_ensures(ReadCollector::is_done, (&reads,), done),
        call_ensures(ReadCollector::finish, (reads,), r),
    ensures
        done <==> forall|s: u64| #[trigger]
            reads@.expected.contains(s) ==> reads@.received.contains(s),
        r is Ok <==> forall|k: Path| #[trigger]
            reads@.full_reads.contains_key(k) <==> reads@.read_set.contains(k),
        r matches Ok(found) ==> found.0@ == reads@.full_reads && found.1 == reads@.received.len(),
{
    if forall|k: Path| #[trigger]
        reads@.full_reads.contains_key(k) <==> reads@.read_set.contains(k) {
        assert(reads@.full_reads.dom() =~= reads@.read_set);
    }
    if reads@.full_reads.dom() == reads@.read_set {
        assert forall|k: Path| #[trigger]
            reads@.full_reads.contains_key(k) <==> reads@.read_set.contains(k) by {
            assert(reads@.full_reads.dom().contains(k) == reads@.read_set.contains(k));
        }
    }
}

} // verus!
