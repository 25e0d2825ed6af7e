//! Filling a profile while a batch runs.

use crate::collections::OrdSet;
use crate::model::profile;
use crate::model::{
    chars_of, BatchId, SchedulerProfileCounters, SchedulerProfileRecord, SchedulerProfileScheduler,
    SchedulerProfileTimings, ShardId, WorkerStageStats,
};
use crate::router::Participants;
use crate::scc::plan::{DagNode, SemanticDag};
use vstd::prelude::*;

verus! {

/// What a worker under locks measured.
#[derive(Clone, Copy, Debug, PartialEq, Eq, Structural)]
pub struct CalvinWorkerProfile {
    pub lock_wait_ns: u64,
    pub local_read_ns: u64,
    pub remote_read_send_ns: u64,
    pub remote_read_collect_ns: u64,
    pub execute_apply_ns: u64,
    pub result_mark_ns: u64,
    pub remote_sent: u64,
    pub remote_received: u64,
}

impl Default for CalvinWorkerProfile {
    fn default() -> (r: Self)
        ensures
            r == (CalvinWorkerProfile {
                lock_wait_ns: 0,
                local_read_ns: 0,
                remote_read_send_ns: 0,
                remote_read_collect_ns: 0,
                execute_apply_ns: 0,
                result_mark_ns: 0,
                remote_sent: 0,
                remote_received: 0,
            }),
    {
        CalvinWorkerProfile {
            lock_wait_ns: 0,
            local_read_ns: 0,
            remote_read_send_ns: 0,
            remote_read_collect_ns: 0,
            execute_apply_ns: 0,
            result_mark_ns: 0,
            remote_sent: 0,
            remote_received: 0,
        }
    }
}

/// What a speculating worker measured.
#[derive(Clone, Copy, Debug, PartialEq, Eq, Structural)]
pub struct SccWorkerProfile {
    pub effect_wait_ns: u64,
    pub effect_materialize_ns: u64,
    pub effect_send_ns: u64,
    pub effect_collect_ns: u64,
    pub execute_ns: u64,
    pub delta_build_ns: u64,
    pub condition_wait_ns: u64,
    pub condition_materialize_ns: u64,
    pub condition_send_ns: u64,
    pub condition_collect_ns: u64,
    pub condition_check_ns: u64,
    pub commit_ns: u64,
    pub remote_sent: u64,
    pub remote_received: u64,
    pub condition_skipped: bool,
    pub delta_op_count: u64,
}

impl SccWorkerProfile {
    /// Nothing measured.
    pub open spec fn zero() -> SccWorkerProfile {
        SccWorkerProfile {
            effect_wait_ns: 0,
            effect_materialize_ns: 0,
            effect_send_ns: 0,
            effect_collect_ns: 0,
            execute_ns: 0,
            delta_build_ns: 0,
            condition_wait_ns: 0,
            condition_materialize_ns: 0,
            condition_send_ns: 0,
            condition_collect_ns: 0,
            condition_check_ns: 0,
            commit_ns: 0,
            remote_sent: 0,
            remote_received: 0,
            condition_skipped: false,
            delta_op_count: 0,
        }
    }
}

impl Default for SccWorkerProfile {
    fn default() -> (r: Self)
        ensures
            r == SccWorkerProfile::zero(),
    {
        SccWorkerProfile {
            effect_wait_ns: 0,
            effect_materialize_ns: 0,
            effect_send_ns: 0,
            effect_collect_ns: 0,
            execute_ns: 0,
            delta_build_ns: 0,
            condition_wait_ns: 0,
            condition_materialize_ns: 0,
            condition_send_ns: 0,
            condition_collect_ns: 0,
            condition_check_ns: 0,
            commit_ns: 0,
            remote_sent: 0,
            remote_received: 0,
            condition_skipped: false,
            delta_op_count: 0,
        }
    }
}

/// A length as a counter.
pub fn usize_to_u64(value: usize) -> (r: u64)
    ensures
        r == value,
{
    value as u64
}

/// The profile of a batch before it runs.
pub fn new_scheduler_profile(
    scheduler: SchedulerProfileScheduler,
    batch_id: BatchId,
    tx_count: usize,
    shard_id: ShardId,
) -> (r: SchedulerProfileRecord)
    ensures
        r == (SchedulerProfileRecord {
            scheduler,
            batch_id,
            shard_id,
            counters: SchedulerProfileCounters {
                tx_count: tx_count as u64,
                ..SchedulerProfileCounters::zero()
            },
            timings: SchedulerProfileTimings::zero(),
        }),
{
    let mut counters = SchedulerProfileCounters::default();
    counters.tx_count = usize_to_u64(tx_count);
    SchedulerProfileRecord {
        scheduler,
        batch_id,
        shard_id,
        counters,
        timings: SchedulerProfileTimings::default(),
    }
}

/// Counts a transaction as run here, or as only served here.
pub fn add_participant_counters(
    counters: &mut SchedulerProfileCounters,
    participants: &Participants,
    shard_id: ShardId,
)
    ensures
        *final(counters) == (if participants@.active.contains(shard_id) {
            SchedulerProfileCounters {
                active_tx_count: profile::capped_sum(old(counters).active_tx_count, 1),
                ..*old(counters)
            }
        } else {
            SchedulerProfileCounters {
                passive_tx_count: profile::capped_sum(old(counters).passive_tx_count, 1),
                ..*old(counters)
            }
        }),
{
    if participants.active.contains(&shard_id) {
        counters.active_tx_count = counters.active_tx_count.saturating_add(1);
    } else {
        counters.passive_tx_count = counters.passive_tx_count.saturating_add(1);
    }
}

/// `record` with what a worker under locks measured.
pub open spec fn with_calvin_worker(
    record: SchedulerProfileRecord,
    worker: CalvinWorkerProfile,
) -> SchedulerProfileRecord {
    let t = record.timings;
    let c = record.counters;
    SchedulerProfileRecord {
        timings: SchedulerProfileTimings {
            lock_wait_sum_ns: profile::capped_sum(t.lock_wait_sum_ns, worker.lock_wait_ns),
            lock_wait_max_ns: profile::larger(t.lock_wait_max_ns, worker.lock_wait_ns),
            local_read_ns: profile::capped_sum(t.local_read_ns, worker.local_read_ns),
            remote_read_send_ns: profile::capped_sum(
                t.remote_read_send_ns,
                worker.remote_read_send_ns,
            ),
            remote_read_collect_ns: profile::capped_sum(
                t.remote_read_collect_ns,
                worker.remote_read_collect_ns,
            ),
            execute_apply_ns: profile::capped_sum(t.execute_apply_ns, worker.execute_apply_ns),
            result_mark_ns: profile::capped_sum(t.result_mark_ns, worker.result_mark_ns),
            ..t
        },
        counters: SchedulerProfileCounters {
            remote_read_messages_sent: profile::capped_sum(
                c.remote_read_messages_sent,
                worker.remote_sent,
            ),
            remote_read_messages_received: profile::capped_sum(
                c.remote_read_messages_received,
                worker.remote_received,
            ),
            ..c
        },
        ..record
    }
}

pub fn merge_calvin_worker_profile(
    record: &mut SchedulerProfileRecord,
    worker: &CalvinWorkerProfile,
)
    ensures
        *final(record) == with_calvin_worker(*old(record), *worker),
{
    let mut t = record.timings;
    t.lock_wait_sum_ns = t.lock_wait_sum_ns.saturating_add(worker.lock_wait_ns);
    if t.lock_wait_max_ns < worker.lock_wait_ns {
        t.lock_wait_max_ns = worker.lock_wait_ns;
    }
    t.local_read_ns = t.local_read_ns.saturating_add(worker.local_read_ns);
    t.remote_read_send_ns = t.remote_read_send_ns.saturating_add(worker.remote_read_send_ns);
    t.remote_read_collect_ns = t.remote_read_collect_ns.saturating_add(
        worker.remote_read_collect_ns,
    );
    t.execute_apply_ns = t.execute_apply_ns.saturating_add(worker.execute_apply_ns);
    t.result_mark_ns = t.result_mark_ns.saturating_add(worker.result_mark_ns);
    record.timings = t;
    add_messages(&mut record.counters, worker.remote_sent, worker.remote_received);
}

/// Counts messages.
fn add_messages(counters: &mut SchedulerProfileCounters, sent: u64, received: u64)
    ensures
        *final(counters) == (SchedulerProfileCounters {
            remote_read_messages_sent: profile::capped_sum(
                old(counters).remote_read_messages_sent,
                sent,
            ),
            remote_read_messages_received: profile::capped_sum(
                old(counters).remote_read_messages_received,
                received,
            ),
            ..*old(counters)
        }),
{
    counters.remote_read_messages_sent = counters.remote_read_messages_sent.saturating_add(sent);
    counters.remote_read_messages_received = counters.remote_read_messages_received.saturating_add(
        received,
    );
}

/// The stats with a sample, where there was one.
pub open spec fn sampled(stats: WorkerStageStats, ns: u64) -> WorkerStageStats {
    if ns > 0 {
        stats.with_sample(ns)
    } else {
        stats
    }
}

/// Adds a sample, where there was one: no stage takes no time.
fn add_stage_sample(stats: WorkerStageStats, ns: u64) -> (r: WorkerStageStats)
    ensures
        r == sampled(stats, ns),
{
    let mut stats = stats;
    if ns > 0 {
        stats.add_sample(ns);
    }
    stats
}

/// `record` with what a speculating worker measured.
pub open spec fn with_scc_worker(
    record: SchedulerProfileRecord,
    worker: SccWorkerProfile,
) -> SchedulerProfileRecord {
    let t = record.timings;
    let c = record.counters;
    SchedulerProfileRecord {
        timings: SchedulerProfileTimings {
            scc_effect_wait: sampled(t.scc_effect_wait, worker.effect_wait_ns),
            scc_effect_materialize: sampled(
                t.scc_effect_materialize,
                worker.effect_materialize_ns,
            ),
            scc_effect_send: sampled(t.scc_effect_send, worker.effect_send_ns),
            scc_effect_collect: sampled(t.scc_effect_collect, worker.effect_collect_ns),
            scc_execute: sampled(t.scc_execute, worker.execute_ns),
            scc_delta_build: sampled(t.scc_delta_build, worker.delta_build_ns),
            scc_condition_wait: sampled(t.scc_condition_wait, worker.condition_wait_ns),
            scc_condition_materialize: sampled(
                t.scc_condition_materialize,
                worker.condition_materialize_ns,
            ),
            scc_condition_send: sampled(t.scc_condition_send, worker.condition_send_ns),
            scc_condition_collect: sampled(t.scc_condition_collect, worker.condition_collect_ns),
            scc_condition_check: sampled(t.scc_condition_check, worker.condition_check_ns),
            scc_commit: sampled(t.scc_commit, worker.commit_ns),
            ..t
        },
        counters: SchedulerProfileCounters {
            condition_skipped_count: profile::capped_sum(
                c.condition_skipped_count,
                if worker.condition_skipped {
                    1
                } else {
                    0
                },
            ),
            delta_op_count: profile::capped_sum(c.delta_op_count, worker.delta_op_count),
            remote_read_messages_sent: profile::capped_sum(
                c.remote_read_messages_sent,
                worker.remote_sent,
            ),
            remote_read_messages_received: profile::capped_sum(
                c.remote_read_messages_received,
                worker.remote_received,
            ),
            ..c
        },
        ..record
    }
}

pub fn merge_scc_worker_profile(record: &mut SchedulerProfileRecord, worker: &SccWorkerProfile)
    ensures
        *final(record) == with_scc_worker(*old(record), *worker),
{
    let mut t = record.timings;
    t.scc_effect_wait = add_stage_sample(t.scc_effect_wait, worker.effect_wait_ns);
    t.scc_effect_materialize = add_stage_sample(
        t.scc_effect_materialize,
        worker.effect_materialize_ns,
    );
    t.scc_effect_send = add_stage_sample(t.scc_effect_send, worker.effect_send_ns);
    t.scc_effect_collect = add_stage_sample(t.scc_effect_collect, worker.effect_collect_ns);
    t.scc_execute = add_stage_sample(t.scc_execute, worker.execute_ns);
    t.scc_delta_build = add_stage_sample(t.scc_delta_build, worker.delta_build_ns);
    t.scc_condition_wait = add_stage_sample(t.scc_condition_wait, worker.condition_wait_ns);
    t.scc_condition_materialize = add_stage_sample(
        t.scc_condition_materialize,
        worker.condition_materialize_ns,
    );
    t.scc_condition_send = add_stage_sample(t.scc_condition_send, worker.condition_send_ns);
    t.scc_condition_collect = add_stage_sample(
        t.scc_condition_collect,
        worker.condition_collect_ns,
    );
    t.scc_condition_check = add_stage_sample(t.scc_condition_check, worker.condition_check_ns);
    t.scc_commit = add_stage_sample(t.scc_commit, worker.commit_ns);
    record.timings = t;
    if worker.condition_skipped {
        record.counters.condition_skipped_count =
            record.counters.condition_skipped_count.saturating_add(1);
    }
    record.counters.delta_op_count = record.counters.delta_op_count.saturating_add(
        worker.delta_op_count,
    );
    add_messages(&mut record.counters, worker.remote_sent, worker.remote_received);
}

/// The number of edges that leave the first `n` vertices.
pub open spec fn edges_below(nodes: Seq<DagNode>, n: int) -> nat
    decreases n,
{
    if n <= 0 {
        0
    } else {
        edges_below(nodes, n - 1) + nodes[n - 1].successors@.len()
    }
}

/// A number, or the largest counter where that is less.
pub open spec fn capped(n: nat) -> u64 {
    if n > u64::MAX {
        u64::MAX
    } else {
        n as u64
    }
}

/// The number of edges of a graph.
pub fn dag_edge_count(dag: &SemanticDag) -> (r: u64)
    ensures
        r == capped(edges_below(dag.nodes@, dag.nodes@.len() as int)),
{
    let mut count: u64 = 0;
    let mut i: usize = 0;
    while i < dag.nodes.len()
        invariant
            i <= dag.nodes.len(),
            count == capped(edges_below(dag.nodes@, i as int)),
        decreases dag.nodes.len() - i,
    {
        count = count.saturating_add(usize_to_u64(dag.nodes[i].successors.len()));
        i += 1;
    }
    count
}

/// The number of keys in the first `n` sets.
pub open spec fn keys_below<K: crate::collections::SortKey>(sets: Seq<OrdSet<K>>, n: int) -> nat
    decreases n,
{
    if n <= 0 {
        0
    } else {
        keys_below(sets, n - 1) + sets[n - 1]@.len()
    }
}

/// The number of keys in all of `sets`.
pub fn key_count<K: crate::collections::SortKey>(sets: &Vec<OrdSet<K>>) -> (r: u64)
    ensures
        r == capped(keys_below(sets@, sets@.len() as int)),
{
    let mut count: u64 = 0;
    let mut i: usize = 0;
    while i < sets.len()
        invariant
            i <= sets.len(),
            count == capped(keys_below(sets@, i as int)),
        decreases sets.len() - i,
    {
        count = count.saturating_add(usize_to_u64(sets[i].len()));
        i += 1;
    }
    count
}

/// The number of pairs among `n`; half the largest counter where the product of which it
/// is half is more than that.
pub open spec fn pairs(n: nat) -> nat {
    let product = n * (n - 1);
    if product > u64::MAX {
        (u64::MAX / 2) as nat
    } else {
        (product / 2) as nat
    }
}

/// The number of pairs of transactions that planning looks at.
pub fn plan_pair_count(tx_count: usize) -> (r: u64)
    ensures
        r == pairs(tx_count as nat),
{
    let n = usize_to_u64(tx_count);
    if n == 0 {
        assert((tx_count as nat) * ((tx_count as nat) - 1) == 0) by (nonlinear_arith)
            requires
                tx_count == 0,
        ;
        return 0;
    }
    match n.checked_mul(n - 1) {
        Some(product) => product / 2,
        None => u64::MAX / 2,
    }
}

/// A measured time as it is noted: at least one nanosecond, and no more than fits.
pub fn clamp_ns(nanos: u128) -> (r: u64)
    ensures
        r == (if nanos > u64::MAX {
            u64::MAX
        } else if nanos == 0 {
            1
        } else {
            nanos as u64
        }),
{
    if nanos > u64::MAX as u128 {
        u64::MAX
    } else if nanos == 0 {
        1
    } else {
        nanos as u64
    }
}

/// A character with the Unicode property `White_Space`.
pub open spec fn is_white(c: char) -> bool {
    ||| '\u{9}' <= c && c <= '\u{d}'
    ||| '\u{2000}' <= c && c <= '\u{200a}'
    ||| c == ' ' || c == '\u{85}' || c == '\u{a0}' || c == '\u{1680}'
    ||| c == '\u{2028}' || c == '\u{2029}' || c == '\u{202f}' || c == '\u{205f}'
    ||| c == '\u{3000}'
}

/// A text without the white space before it.
pub open spec fn without_lead(text: Seq<char>) -> Seq<char>
    decreases text.len(),
{
    if text.len() > 0 && is_white(text.first()) {
        without_lead(text.drop_first())
    } else {
        text
    }
}

/// A text without the white space after it.
pub open spec fn without_tail(text: Seq<char>) -> Seq<char>
    decreases text.len(),
{
    if text.len() > 0 && is_white(text.last()) {
        without_tail(text.drop_last())
    } else {
        text
    }
}

/// A text without the white space around it.
pub open spec fn trimmed(text: Seq<char>) -> Seq<char> {
    without_tail(without_lead(text))
}

/// Calls `str::trim`: gives the text without the white space at its ends, which is what
/// has the Unicode property `White_Space`.
#[verifier::external_body]
fn trim(text: &str) -> (r: &str)
    ensures
        r@ == trimmed(text@),
{
    text.trim()
}

/// A letter without regard to case, as far as ASCII goes.
pub open spec fn lower(c: char) -> char {
    if 'A' <= c && c <= 'Z' {
        (c as u8 + 32u8) as char
    } else {
        c
    }
}

/// `word` is one of those that switch something on, in capitals or not.
pub open spec fn switches_on(word: Seq<char>) -> bool {
    let word = word.map_values(|c: char| lower(c));
    word == "1"@ || word == "true"@ || word == "yes"@ || word == "on"@
}

fn lower_char(c: char) -> (r: char)
    ensures
        r == lower(c),
{
    if 'A' <= c && c <= 'Z' {
        (c as u8 + 32) as char
    } else {
        c
    }
}

/// Whether `word`, in lower case, is `expected`.
fn spells(word: &Vec<char>, expected: &str) -> (r: bool)
    ensures
        r == (word@.map_values(|c: char| lower(c)) == expected@),
{
    let letters = chars_of(expected);
    let ghost low = word@.map_values(|c: char| lower(c));
    if letters.len() != word.len() {
        return false;
    }
    let mut i: usize = 0;
    while i < word.len()
        invariant
            i <= word.len(),
            letters@ == expected@,
            letters.len() == word.len(),
            low == word@.map_values(|c: char| lower(c)),
            forall|j: int| 0 <= j < i ==> #[trigger] low[j] == letters@[j],
        decreases word.len() - i,
    {
        if lower_char(word[i]) != letters[i] {
            assert(low[i as int] != letters@[i as int]);
            return false;
        }
        i += 1;
    }
    assert(low =~= letters@);
    true
}

/// Whether `word` is one of those that switch something on.
pub fn is_on_word(word: &str) -> (r: bool)
    ensures
        r == switches_on(word@),
{
    let letters = chars_of(word);
    spells(&letters, "1") || spells(&letters, "true") || spells(&letters, "yes") || spells(
        &letters,
        "on",
    )
}

/// Whether a setting asks for profiles.
pub fn profile_setting_is_on(value: &str) -> (r: bool)
    ensures
        r == switches_on(trimmed(value@)),
{
    is_on_word(trim(value))
}

} // verus!
