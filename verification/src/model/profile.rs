//! Where the time of a batch went.

use crate::model::{BatchId, ShardId};
use vstd::prelude::*;

verus! {

/// The scheduler that a profile is about.
#[derive(Clone, Copy, Debug, PartialEq, Eq, Structural)]
pub enum SchedulerProfileScheduler {
    CalvinLocking,
    SccOnline,
    Aria,
}

/// The larger of two numbers.
pub open spec fn larger(a: u64, b: u64) -> u64 {
    if a < b {
        b
    } else {
        a
    }
}

/// The sum of two numbers, or the largest number where that is less.
pub open spec fn capped_sum(a: u64, b: u64) -> u64 {
    if a + b > u64::MAX {
        u64::MAX
    } else {
        (a + b) as u64
    }
}

/// The time that workers spent in one stage, in nanoseconds.
#[derive(Clone, Copy, Debug, PartialEq, Eq, Structural)]
pub struct WorkerStageStats {
    pub sum_ns: u64,
    pub max_ns: u64,
}

impl Default for WorkerStageStats {
    fn default() -> (r: Self)
        ensures
            r == WorkerStageStats::zero(),
    {
        WorkerStageStats { sum_ns: 0, max_ns: 0 }
    }
}

impl WorkerStageStats {
    /// No time spent.
    pub open spec fn zero() -> WorkerStageStats {
        WorkerStageStats { sum_ns: 0, max_ns: 0 }
    }

    /// The same with one more sample.
    pub open spec fn with_sample(self, ns: u64) -> WorkerStageStats {
        WorkerStageStats {
            sum_ns: capped_sum(self.sum_ns, ns),
            max_ns: larger(self.max_ns, ns),
        }
    }

    pub fn add_sample(&mut self, ns: u64)
        ensures
            *final(self) == old(self).with_sample(ns),
    {
        self.sum_ns = self.sum_ns.saturating_add(ns);
        if self.max_ns < ns {
            self.max_ns = ns;
        }
    }
}

/// What was counted of a batch.
#[derive(Clone, Copy, Debug, PartialEq, Eq, Structural)]
pub struct SchedulerProfileCounters {
    pub tx_count: u64,
    pub relevant_tx_count: u64,
    pub active_tx_count: u64,
    pub passive_tx_count: u64,
    pub non_participant_tx_count: u64,
    pub local_read_key_count: u64,
    pub local_write_key_count: u64,
    pub remote_read_messages_sent: u64,
    pub remote_read_messages_received: u64,
    pub result_records_produced: u64,
    pub lock_key_count: u64,
    pub plan_pair_count: u64,
    pub effect_edge_count: u64,
    pub condition_edge_count: u64,
    pub condition_skipped_count: u64,
    pub speculative_success_count: u64,
    pub local_failed_count: u64,
    pub global_failed_count: u64,
    pub fallback_tx_count: u64,
    pub delta_op_count: u64,
    pub completion_reports_sent: u64,
    pub completion_reports_received: u64,
}

impl SchedulerProfileCounters {
    /// Nothing counted.
    pub open spec fn zero() -> SchedulerProfileCounters {
        SchedulerProfileCounters {
            tx_count: 0,
            relevant_tx_count: 0,
            active_tx_count: 0,
            passive_tx_count: 0,
            non_participant_tx_count: 0,
            local_read_key_count: 0,
            local_write_key_count: 0,
            remote_read_messages_sent: 0,
            remote_read_messages_received: 0,
            result_records_produced: 0,
            lock_key_count: 0,
            plan_pair_count: 0,
            effect_edge_count: 0,
            condition_edge_count: 0,
            condition_skipped_count: 0,
            speculative_success_count: 0,
            local_failed_count: 0,
            global_failed_count: 0,
            fallback_tx_count: 0,
            delta_op_count: 0,
            completion_reports_sent: 0,
            completion_reports_received: 0,
        }
    }
}

impl Default for SchedulerProfileCounters {
    fn default() -> (r: Self)
        ensures
            r == SchedulerProfileCounters::zero(),
    {
        SchedulerProfileCounters {
            tx_count: 0,
            relevant_tx_count: 0,
            active_tx_count: 0,
            passive_tx_count: 0,
            non_participant_tx_count: 0,
            local_read_key_count: 0,
            local_write_key_count: 0,
            remote_read_messages_sent: 0,
            remote_read_messages_received: 0,
            result_records_produced: 0,
            lock_key_count: 0,
            plan_pair_count: 0,
            effect_edge_count: 0,
            condition_edge_count: 0,
            condition_skipped_count: 0,
            speculative_success_count: 0,
            local_failed_count: 0,
            global_failed_count: 0,
            fallback_tx_count: 0,
            delta_op_count: 0,
            completion_reports_sent: 0,
            completion_reports_received: 0,
        }
    }
}

/// The time that a batch took, in nanoseconds.
#[derive(Clone, Copy, Debug, PartialEq, Eq, Structural)]
pub struct SchedulerProfileTimings {
    pub total_ns: u64,
    pub cleanup_ns: u64,
    pub validate_ns: u64,
    pub result_registry_ns: u64,
    pub lock_wait_sum_ns: u64,
    pub lock_wait_max_ns: u64,
    pub local_read_ns: u64,
    pub remote_read_send_ns: u64,
    pub remote_read_collect_ns: u64,
    pub execute_apply_ns: u64,
    pub result_mark_ns: u64,
    pub outcome_collect_release_ns: u64,
    pub plan_build_ns: u64,
    pub dag_setup_ns: u64,
    pub base_read_ns: u64,
    pub mailbox_spawn_ns: u64,
    pub completion_publish_ns: u64,
    pub completion_collect_ns: u64,
    pub record_reorder_ns: u64,
    pub install_successes_ns: u64,
    pub fallback_ns: u64,
    pub scc_effect_wait: WorkerStageStats,
    pub scc_effect_materialize: WorkerStageStats,
    pub scc_effect_send: WorkerStageStats,
    pub scc_effect_collect: WorkerStageStats,
    pub scc_execute: WorkerStageStats,
    pub scc_delta_build: WorkerStageStats,
    pub scc_condition_wait: WorkerStageStats,
    pub scc_condition_materialize: WorkerStageStats,
    pub scc_condition_send: WorkerStageStats,
    pub scc_condition_collect: WorkerStageStats,
    pub scc_condition_check: WorkerStageStats,
    pub scc_commit: WorkerStageStats,
}

impl SchedulerProfileTimings {
    /// No time spent.
    pub open spec fn zero() -> SchedulerProfileTimings {
        SchedulerProfileTimings {
            total_ns: 0,
            cleanup_ns: 0,
            validate_ns: 0,
            result_registry_ns: 0,
            lock_wait_sum_ns: 0,
            lock_wait_max_ns: 0,
            local_read_ns: 0,
            remote_read_send_ns: 0,
            remote_read_collect_ns: 0,
            execute_apply_ns: 0,
            result_mark_ns: 0,
            outcome_collect_release_ns: 0,
            plan_build_ns: 0,
            dag_setup_ns: 0,
            base_read_ns: 0,
            mailbox_spawn_ns: 0,
            completion_publish_ns: 0,
            completion_collect_ns: 0,
            record_reorder_ns: 0,
            install_successes_ns: 0,
            fallback_ns: 0,
            scc_effect_wait: WorkerStageStats::zero(),
            scc_effect_materialize: WorkerStageStats::zero(),
            scc_effect_send: WorkerStageStats::zero(),
            scc_effect_collect: WorkerStageStats::zero(),
            scc_execute: WorkerStageStats::zero(),
            scc_delta_build: WorkerStageStats::zero(),
            scc_condition_wait: WorkerStageStats::zero(),
            scc_condition_materialize: WorkerStageStats::zero(),
            scc_condition_send: WorkerStageStats::zero(),
            scc_condition_collect: WorkerStageStats::zero(),
            scc_condition_check: WorkerStageStats::zero(),
            scc_commit: WorkerStageStats::zero(),
        }
    }
}

impl Default for SchedulerProfileTimings {
    fn default() -> (r: Self)
        ensures
            r == SchedulerProfileTimings::zero(),
    {
        SchedulerProfileTimings {
            total_ns: 0,
            cleanup_ns: 0,
            validate_ns: 0,
            result_registry_ns: 0,
            lock_wait_sum_ns: 0,
            lock_wait_max_ns: 0,
            local_read_ns: 0,
            remote_read_send_ns: 0,
            remote_read_collect_ns: 0,
            execute_apply_ns: 0,
            result_mark_ns: 0,
            outcome_collect_release_ns: 0,
            plan_build_ns: 0,
            dag_setup_ns: 0,
            base_read_ns: 0,
            mailbox_spawn_ns: 0,
            completion_publish_ns: 0,
            completion_collect_ns: 0,
            record_reorder_ns: 0,
            install_successes_ns: 0,
            fallback_ns: 0,
            scc_effect_wait: WorkerStageStats::default(),
            scc_effect_materialize: WorkerStageStats::default(),
            scc_effect_send: WorkerStageStats::default(),
            scc_effect_collect: WorkerStageStats::default(),
            scc_execute: WorkerStageStats::default(),
            scc_delta_build: WorkerStageStats::default(),
            scc_condition_wait: WorkerStageStats::default(),
            scc_condition_materialize: WorkerStageStats::default(),
            scc_condition_send: WorkerStageStats::default(),
            scc_condition_collect: WorkerStageStats::default(),
            scc_condition_check: WorkerStageStats::default(),
            scc_commit: WorkerStageStats::default(),
        }
    }
}

/// What a shard noted of a batch.
#[derive(Clone, Copy, Debug, PartialEq, Eq, Structural)]
pub struct SchedulerProfileRecord {
    pub scheduler: SchedulerProfileScheduler,
    pub batch_id: BatchId,
    pub shard_id: ShardId,
    pub counters: SchedulerProfileCounters,
    pub timings: SchedulerProfileTimings,
}

} // verus!
