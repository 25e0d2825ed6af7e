//! Calls that count and measure.

use crate::collections::OrdSet;
use crate::engine::profile;
use crate::engine::profile::{
    add_participant_counters, clamp_ns, dag_edge_count, is_on_word, key_count,
    merge_calvin_worker_profile, merge_scc_worker_profile, new_scheduler_profile,
    plan_pair_count, profile_setting_is_on, CalvinWorkerProfile, SccWorkerProfile,
};
use crate::model::profile::{
    SchedulerProfileCounters, SchedulerProfileRecord, SchedulerProfileScheduler, WorkerStageStats,
};
use crate::model::{BatchId, Key, ShardId};
use crate::router::Participants;
use crate::scc::plan::{DagNode, SemanticDag};
use vstd::prelude::*;

verus! {

/// `after` is `before` and `more`, or the largest counter where that is less.
pub open spec fn grew(before: u64, more: u64, after: u64) -> bool {
    if before + more <= u64::MAX {
        after == before + more
    } else {
        after == u64::MAX
    }
}

/// A stage took `ns` more, once; a stage that took no time does not count.
pub open spec fn took(before: WorkerStageStats, ns: u64, after: WorkerStageStats) -> bool {
    &&& grew(before.sum_ns, ns, after.sum_ns)
    &&& after.max_ns >= before.max_ns && after.max_ns >= ns
    &&& after.max_ns == before.max_ns || after.max_ns == ns
}

/// A sample adds to the sum and is the longest if it is longer than all before.
pub proof fn lemma_sample_call(stats: &mut WorkerStageStats, ns: u64)
    requires
        call_ensures(WorkerStageStats::add_sample, (stats, ns), ()),
    ensures
        took(*old(stats), ns, *final(stats)),
{
}

/// The profile of a batch begins with its size and nothing else.
pub proof fn lemma_new_profile_call(
    scheduler: SchedulerProfileScheduler,
    batch_id: BatchId,
    tx_count: usize,
    shard_id: ShardId,
    r: SchedulerProfileRecord,
)
    requires
        call_ensures(new_scheduler_profile, (scheduler, batch_id, tx_count, shard_id), r),
    ensures
        r.scheduler == scheduler,
        r.batch_id == batch_id,
        r.shard_id == shard_id,
        r.counters.tx_count == tx_count,
        r.counters.active_tx_count == 0 && r.counters.passive_tx_count == 0,
        r.counters.remote_read_messages_sent == 0 && r.counters.remote_read_messages_received == 0,
        r.timings.total_ns == 0 && r.timings.lock_wait_sum_ns == 0 && r.timings.lock_wait_max_ns
            == 0,
        r.timings.scc_execute.sum_ns == 0 && r.timings.scc_commit.max_ns == 0,
{
}

/// A transaction counts as run here if this shard runs it, and as served here otherwise;
/// nothing else is counted.
pub proof fn lemma_participant_call(
    counters: &mut SchedulerProfileCounters,
    participants: &Participants,
    shard_id: ShardId,
)
    requires
        call_ensures(add_participant_counters, (counters, participants, shard_id), ()),
    ensures
        participants.active@.contains(shard_id) ==> grew(
            old(counters).active_tx_count,
            1,
            final(counters).active_tx_count,
        ) && final(counters).passive_tx_count == old(counters).passive_tx_count,
        !participants.active@.contains(shard_id) ==> grew(
            old(counters).passive_tx_count,
            1,
            final(counters).passive_tx_count,
        ) && final(counters).active_tx_count == old(counters).active_tx_count,
        final(counters).tx_count == old(counters).tx_count,
        final(counters).lock_key_count == old(counters).lock_key_count,
{
}

/// What a worker under locks measured is added, each to its own; the longest wait for a
/// lock stays the longest.
pub proof fn lemma_calvin_profile_call(
    record: &mut SchedulerProfileRecord,
    worker: &CalvinWorkerProfile,
)
    requires
        call_ensures(merge_calvin_worker_profile, (record, worker), ()),
    ensures
        ({
            let t = old(record).timings;
            let u = final(record).timings;
            let c = old(record).counters;
            let d = final(record).counters;
            &&& grew(t.lock_wait_sum_ns, worker.lock_wait_ns, u.lock_wait_sum_ns)
            &&& u.lock_wait_max_ns >= t.lock_wait_max_ns && u.lock_wait_max_ns
                >= worker.lock_wait_ns
            &&& u.lock_wait_max_ns == t.lock_wait_max_ns || u.lock_wait_max_ns
                == worker.lock_wait_ns
            &&& grew(t.local_read_ns, worker.local_read_ns, u.local_read_ns)
            &&& grew(t.remote_read_send_ns, worker.remote_read_send_ns, u.remote_read_send_ns)
            &&& grew(
                t.remote_read_collect_ns,
                worker.remote_read_collect_ns,
                u.remote_read_collect_ns,
            )
            &&& grew(t.execute_apply_ns, worker.execute_apply_ns, u.execute_apply_ns)
            &&& grew(t.result_mark_ns, worker.result_mark_ns, u.result_mark_ns)
            &&& grew(
                c.remote_read_messages_sent,
                worker.remote_sent,
                d.remote_read_messages_sent,
            )
            &&& grew(
                c.remote_read_messages_received,
                worker.remote_received,
                d.remote_read_messages_received,
            )
            &&& u.total_ns == t.total_ns && u.cleanup_ns == t.cleanup_ns && u.validate_ns
                == t.validate_ns && u.result_registry_ns == t.result_registry_ns
            &&& u.scc_execute == t.scc_execute && u.scc_commit == t.scc_commit
            &&& d.tx_count == c.tx_count && d.active_tx_count == c.active_tx_count
            &&& final(record).batch_id == old(record).batch_id
            &&& final(record).shard_id == old(record).shard_id
        }),
{
}

/// What a speculating worker measured is added, each to its own.
pub proof fn lemma_scc_profile_call(
    record: &mut SchedulerProfileRecord,
    worker: &SccWorkerProfile,
)
    requires
        call_ensures(merge_scc_worker_profile, (record, worker), ()),
    ensures
        ({
            let t = old(record).timings;
            let u = final(record).timings;
            let c = old(record).counters;
            let d = final(record).counters;
            &&& took(t.scc_effect_wait, worker.effect_wait_ns, u.scc_effect_wait)
            &&& took(
                t.scc_effect_materialize,
                worker.effect_materialize_ns,
                u.scc_effect_materialize,
            )
            &&& took(t.scc_effect_send, worker.effect_send_ns, u.scc_effect_send)
            &&& took(t.scc_effect_collect, worker.effect_collect_ns, u.scc_effect_collect)
            &&& took(t.scc_execute, worker.execute_ns, u.scc_execute)
            &&& took(t.scc_delta_build, worker.delta_build_ns, u.scc_delta_build)
            &&& took(t.scc_condition_wait, worker.condition_wait_ns, u.scc_condition_wait)
            &&& took(
                t.scc_condition_materialize,
                worker.condition_materialize_ns,
                u.scc_condition_materialize,
            )
            &&& took(t.scc_condition_send, worker.condition_send_ns, u.scc_condition_send)
            &&& took(t.scc_condition_collect, worker.condition_collect_ns, u.scc_condition_collect)
            &&& took(t.scc_condition_check, worker.condition_check_ns, u.scc_condition_check)
            &&& took(t.scc_commit, worker.commit_ns, u.scc_commit)
            &&& grew(
                c.condition_skipped_count,
                if worker.condition_skipped {
                    1
                } else {
                    0
                },
                d.condition_skipped_count,
            )
            &&& grew(c.delta_op_count, worker.delta_op_count, d.delta_op_count)
            &&& grew(
                c.remote_read_messages_sent,
                worker.remote_sent,
                d.remote_read_messages_sent,
            )
            &&& grew(
                c.remote_read_messages_received,
                worker.remote_received,
                d.remote_read_messages_received,
            )
            &&& u.total_ns == t.total_ns && u.lock_wait_sum_ns == t.lock_wait_sum_ns
            &&& d.tx_count == c.tx_count && d.active_tx_count == c.active_tx_count
        }),
{
}

/// One vertex more has as many edges more as leave it; without vertices there are none.
pub proof fn lemma_edges_call(
    dag: &SemanticDag,
    count: u64,
    front: &SemanticDag,
    before: u64,
    last: DagNode,
)
    requires
        call_ensures(dag_edge_count, (dag,), count),
        dag.nodes@ == front.nodes@.push(last),
        call_ensures(dag_edge_count, (front,), before),
        last.successors@.len() <= u64::MAX,
    ensures
        grew(before, last.successors@.len() as u64, count),
        front.nodes@.len() == 0 ==> before == 0,
{
    lemma_edges_of_front(front.nodes@, last, front.nodes@.len() as int);
}

proof fn lemma_edges_of_front(nodes: Seq<DagNode>, last: DagNode, n: int)
    requires
        0 <= n <= nodes.len(),
    ensures
        profile::edges_below(nodes.push(last), n) == profile::edges_below(nodes, n),
    decreases n,
{
    if n > 0 {
        lemma_edges_of_front(nodes, last, n - 1);
    }
}

/// One set more has as many keys more as are in it; without sets there are none.
pub proof fn lemma_key_count_call(
    sets: &Vec<OrdSet<Key>>,
    count: u64,
    front: &Vec<OrdSet<Key>>,
    before: u64,
    last: OrdSet<Key>,
)
    requires
        call_ensures(key_count::<Key>, (sets,), count),
        sets@ == front@.push(last),
        call_ensures(key_count::<Key>, (front,), before),
        last@.len() <= u64::MAX,
    ensures
        grew(before, last@.len() as u64, count),
        front@.len() == 0 ==> before == 0,
{
    lemma_keys_of_front(front@, last, front@.len() as int);
}

proof fn lemma_keys_of_front(sets: Seq<OrdSet<Key>>, last: OrdSet<Key>, n: int)
    requires
        0 <= n <= sets.len(),
    ensures
        profile::keys_below(sets.push(last), n) == profile::keys_below(sets, n),
    decreases n,
{
    if n > 0 {
        lemma_keys_of_front(sets, last, n - 1);
    }
}

/// One transaction more makes a pair with each before it; none and one make no pair.
pub proof fn lemma_pairs_call(n: usize, pairs: u64, more: u64)
    requires
        n < usize::MAX,
        (n + 1) * n <= u64::MAX,
        call_ensures(plan_pair_count, (n,), pairs),
        call_ensures(plan_pair_count, ((n + 1) as usize,), more),
    ensures
        more == pairs + n,
        n <= 1 ==> pairs == 0,
{
    let m = n as int;
    assert((m + 1) * m == m * (m - 1) + 2 * m) by (nonlinear_arith);
    assert(m * (m - 1) <= (m + 1) * m) by (nonlinear_arith)
        requires
            0 <= m,
    ;
    assert(m <= 1 ==> m * (m - 1) == 0) by (nonlinear_arith)
        requires
            0 <= m,
    ;
    assert((n as nat) * ((n as nat) - 1) == m * (m - 1));
    assert(((n + 1) as nat) * (((n + 1) as nat) - 1) == (m + 1) * m);
}

/// A measured time is noted as it is, but that none is noted as less than one, or as more
/// than fits.
pub proof fn lemma_clamp_call(nanos: u128, r: u64)
    requires
        call_ensures(clamp_ns, (nanos,), r),
    ensures
        1 <= nanos <= u64::MAX ==> r == nanos,
        nanos == 0 ==> r == 1,
        nanos > u64::MAX ==> r == u64::MAX,
{
}

/// Two letters are the same but for case.
pub open spec fn same_letter(a: char, b: char) -> bool {
    a == b || 'A' <= a <= 'Z' && b as int == a as int + 32
}

/// `word` is `small`, in capitals or not.
pub open spec fn same_word(word: Seq<char>, small: Seq<char>) -> bool {
    word.len() == small.len() && forall|i: int|
        0 <= i < word.len() ==> same_letter(#[trigger] word[i], small[i])
}

/// The words that switch something on, in capitals or not, and no others.
pub proof fn lemma_on_word_call(word: &str, r: bool)
    requires
        call_ensures(is_on_word, (word,), r),
    ensures
        r <==> same_word(word@, seq!['1']) || same_word(word@, seq!['t', 'r', 'u', 'e'])
            || same_word(word@, seq!['y', 'e', 's']) || same_word(word@, seq!['o', 'n']),
{
    reveal_strlit("1");
    reveal_strlit("true");
    reveal_strlit("yes");
    reveal_strlit("on");
    lemma_spelled(word@, seq!['1']);
    lemma_spelled(word@, seq!['t', 'r', 'u', 'e']);
    lemma_spelled(word@, seq!['y', 'e', 's']);
    lemma_spelled(word@, seq!['o', 'n']);
    assert("1"@ =~= seq!['1']);
    assert("true"@ =~= seq!['t', 'r', 'u', 'e']);
    assert("yes"@ =~= seq!['y', 'e', 's']);
    assert("on"@ =~= seq!['o', 'n']);
}

proof fn lemma_spelled(word: Seq<char>, small: Seq<char>)
    requires
        forall|i: int| 0 <= i < small.len() ==> !('A' <= #[trigger] small[i] <= 'Z'),
    ensures
        word.map_values(|c: char| profile::lower(c)) == small <==> same_word(word, small),
{
    let low = word.map_values(|c: char| profile::lower(c));
    if low == small {
        assert forall|i: int| 0 <= i < word.len() implies same_letter(
            #[trigger] word[i],
            small[i],
        ) by {
            assert(low[i] == profile::lower(word[i]));
        }
    }
    if same_word(word, small) {
        assert forall|i: int| 0 <= i < word.len() implies low[i] == small[i] by {
            assert(same_letter(word[i], small[i]));
        }
        assert(low =~= small);
    }
}

/// White space around a setting does not matter, and within it does: a setting without
/// white space at its ends is on if and only if it is a word that switches something on.
pub proof fn lemma_setting_call(value: &str, on: bool, word: &str, is: bool, c: char)
    requires
        call_ensures(profile_setting_is_on, (value,), on),
        call_ensures(is_on_word, (word,), is),
        value@ == word@ || value@ == seq![' '] + word@ || value@ == word@.push(' ') || value@ == seq![
            '\n',
        ] + word@ || value@ == word@.push('\n') || value@ == word@.push('\t'),
        word@.len() > 0 ==> !profile::is_white(word@.first()) && !profile::is_white(word@.last()),
    ensures
        on == is,
        c == ' ' || c == '\n' || c == '\t' || c == '\r' ==> profile::is_white(c),
        'a' <= c <= 'z' || 'A' <= c <= 'Z' || '0' <= c <= '9' ==> !profile::is_white(c),
{
    let w = word@;
    if value@ == seq![' '] + w || value@ == seq!['\n'] + w {
        assert(value@.drop_first() =~= w);
        assert(profile::is_white(value@.first()));
        reveal_with_fuel(profile::without_lead, 2);
    } else if value@ != w {
        let v = value@;
        assert(v.drop_last() =~= w);
        assert(profile::is_white(v.last()));
        if w.len() == 0 {
            assert(v.drop_first() =~= w);
            reveal_with_fuel(profile::without_lead, 2);
            assert(profile::without_lead(v) =~= w);
        } else {
            assert(v.first() == w.first());
            assert(profile::without_lead(v) == v);
            reveal_with_fuel(profile::without_tail, 2);
        }
    }
    assert(profile::trimmed(value@) =~= w);
}

} // verus!
