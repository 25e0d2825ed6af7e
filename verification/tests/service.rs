use calvinfs_demo::collections::{OrdMap, OrdSet};
use calvinfs_demo::engine::profile::{
    clamp_ns, is_on_word, key_count, merge_calvin_worker_profile, merge_scc_worker_profile,
    new_scheduler_profile, plan_pair_count, profile_setting_is_on, usize_to_u64,
    CalvinWorkerProfile, SccWorkerProfile,
};
use calvinfs_demo::engine::reads::LocalReadResult;
use calvinfs_demo::engine::registry::{
    ClientTxResult, MailboxKey, ReadResultMailboxRegistry, TxResultRegistry,
};
use calvinfs_demo::engine::sequencer::{
    batch_summary, Sequencer, SequencerConfig, SequencerResultPolicy,
};
use calvinfs_demo::engine::SchedulerKind;
use calvinfs_demo::error::BatchFault;
use calvinfs_demo::model::{
    FsOp, Key, LocalReadStatus, ReadPhase, SchedulerProfileScheduler, TxResult, TxResultRecord,
    WorkerStageStats,
};
use calvinfs_demo::router::ShardLayout;
use calvinfs_demo::{Error, Result};

fn key(path: &str) -> Key {
    Key::new(path.to_string()).unwrap()
}

fn stat(path: &str) -> FsOp {
    FsOp::Stat { path: key(path) }
}

fn fault<T>(r: Result<T>) -> BatchFault {
    match r {
        Err(Error::InvalidBatch(fault)) => fault,
        _ => panic!("nothing was refused"),
    }
}

fn message(batch_id: u64, tx_id: u64, phase: ReadPhase, from_shard: u64) -> LocalReadResult {
    LocalReadResult {
        batch_id,
        tx_id,
        phase,
        from_shard,
        status: LocalReadStatus::Success,
        reads: OrdMap::new(),
    }
}

#[test]
fn mailboxes_keep_messages_in_order() {
    let mut boxes = ReadResultMailboxRegistry::new();
    boxes.route(message(1, 2, ReadPhase::SccEffect, 5)).unwrap();
    let mailbox = boxes.receiver(1, 2, ReadPhase::SccEffect).unwrap();
    assert_eq!(mailbox, MailboxKey { batch_id: 1, tx_id: 2, phase: ReadPhase::SccEffect });
    boxes.route(message(1, 2, ReadPhase::SccEffect, 6)).unwrap();
    boxes.route(message(1, 2, ReadPhase::SccCondition, 7)).unwrap();
    assert_eq!(boxes.next(&mailbox).unwrap().unwrap().from_shard, 5);
    assert_eq!(boxes.next(&mailbox).unwrap().unwrap().from_shard, 6);
    assert!(boxes.next(&mailbox).unwrap().is_none());
    assert!(matches!(
        fault(boxes.receiver(1, 2, ReadPhase::SccEffect)),
        BatchFault::MailboxTaken { batch_id: 1, tx_id: 2, phase: ReadPhase::SccEffect }
    ));
    assert_eq!(boxes.cleanup_batch(1), 1);
    assert!(matches!(
        boxes.next(&mailbox),
        Err(Error::ChannelClosed { batch_id: 1, tx_id: 2, phase: ReadPhase::SccEffect })
    ));
}

#[test]
fn reads_for_a_batch_that_is_over_are_refused() {
    let mut boxes = ReadResultMailboxRegistry::new();
    assert_eq!(boxes.cleanup_batch(4), 0);
    let late = boxes.route(message(4, 2, ReadPhase::Calvin, 3)).unwrap_err();
    assert!(matches!(
        late,
        Error::ChannelClosed { batch_id: 4, tx_id: 2, phase: ReadPhase::Calvin }
    ));
    assert!(!late.is_invalid_argument());
    boxes.route(message(5, 2, ReadPhase::Calvin, 3)).unwrap();
}

#[test]
fn reads_for_a_worker_that_has_ended_are_refused() {
    let mut boxes = ReadResultMailboxRegistry::new();
    let mailbox = boxes.receiver(1, 2, ReadPhase::AriaFallback).unwrap();
    boxes.route(message(1, 2, ReadPhase::AriaFallback, 5)).unwrap();
    boxes.close(&mailbox);
    assert!(matches!(
        boxes.route(message(1, 2, ReadPhase::AriaFallback, 5)),
        Err(Error::ChannelClosed { batch_id: 1, tx_id: 2, phase: ReadPhase::AriaFallback })
    ));
    assert!(matches!(boxes.next(&mailbox), Err(Error::ChannelClosed { tx_id: 2, .. })));
    assert!(matches!(
        fault(boxes.receiver(1, 2, ReadPhase::AriaFallback)),
        BatchFault::MailboxTaken { batch_id: 1, tx_id: 2, phase: ReadPhase::AriaFallback }
    ));
    boxes.route(message(1, 3, ReadPhase::AriaFallback, 5)).unwrap();
    assert_eq!(boxes.cleanup_batch(1), 1);
    boxes.close(&mailbox);
    assert!(boxes.route(message(1, 2, ReadPhase::AriaFallback, 5)).is_err());
    boxes.route(message(1, 2, ReadPhase::SccEffect, 5)).unwrap();
}

#[test]
fn results_wait_for_their_transaction() {
    let mut results = TxResultRegistry::new();
    assert!(results.wait(1).is_none());
    results.ensure_pending(1);
    assert!(results.wait(1).is_none());
    results.mark_ready(1, TxResult::NotFound);
    assert!(matches!(results.wait(1), Some(ClientTxResult::Ready(TxResult::NotFound))));
    results.ensure_pending(1);
    assert!(matches!(results.wait(1), Some(ClientTxResult::Ready(TxResult::NotFound))));
    results.mark_not_responsible(2);
    assert!(matches!(results.wait(2), Some(ClientTxResult::NotResponsible)));
}

#[test]
fn single_transactions_fill_a_batch() {
    let layout = ShardLayout::new(4);
    let mut sequencer = Sequencer::new(layout, SequencerResultPolicy::TxIdModulo, 2);
    let first = sequencer.handle_submit_tx(stat("/a")).unwrap();
    assert_eq!((first.ack.tx_id, first.ack.result_shard), (1, 1));
    assert_eq!(first.opened, Some(1));
    assert!(first.sealed.is_none());
    let second = sequencer.handle_submit_tx(stat("/b")).unwrap();
    assert_eq!((second.ack.tx_id, second.ack.result_shard), (2, 2));
    assert_eq!(second.opened, None);
    let sealed = second.sealed.unwrap();
    assert_eq!(sealed.batch.batch_id, 1);
    assert_eq!(sealed.tx_ids, vec![1, 2]);
    assert_eq!(sealed.batch.txs[1].batch_index, 1);
    assert!(sequencer.flush_open(1).is_none());
    let third = sequencer.handle_submit_tx(stat("/c")).unwrap();
    assert_eq!(third.opened, Some(2));
    assert!(sequencer.flush_open(1).is_none());
    assert_eq!(sequencer.flush_open(2).unwrap().tx_ids, vec![3]);
    assert!(sequencer.seal_open_batch().is_none());
}

#[test]
fn a_batch_takes_its_ids_at_once() {
    let layout = ShardLayout::new(4);
    let mut sequencer = Sequencer::new(layout, SequencerResultPolicy::StaticReadWriteSet, 2);
    assert!(sequencer.has_ids_for(2));
    let submitted = sequencer.handle_submit_tx(stat("/a")).unwrap();
    assert_eq!(submitted.ack.result_shard, layout.shard_for_key(&key("/a")));
    let submitted = sequencer.handle_submit_batch(vec![stat("/a"), stat("/b")]).unwrap();
    assert_eq!(submitted.flushed.unwrap().batch.batch_id, 1);
    let sealed = submitted.sealed;
    assert_eq!(sealed.batch.batch_id, 2);
    assert_eq!(sealed.tx_ids, vec![2, 3]);
    assert_eq!(sealed.batch.txs[0].read_set.len(), 1);
    assert!(matches!(
        sequencer.handle_submit_batch(vec![stat("/a"), stat("/b"), stat("/c")]),
        Err(Error::BatchTooLarge { size: 3, max: 2 })
    ));
    let submitted = sequencer.handle_submit_batch(vec![stat("/z")]).unwrap();
    assert!(submitted.flushed.is_none());
    assert_eq!(submitted.sealed.tx_ids, vec![4]);
}

#[test]
fn a_summary_holds_the_reports_of_all_shards() {
    let record = |tx_id, shard_id| TxResultRecord { tx_id, shard_id, result: TxResult::Success };
    let summary = batch_summary(
        3,
        vec![1, 2],
        &vec![vec![record(2, 0)], vec![], vec![record(1, 2), record(2, 2)]],
    );
    assert_eq!(summary.batch_id, 3);
    assert_eq!(summary.tx_ids, vec![1, 2]);
    let seen: Vec<(u64, u64)> =
        summary.tx_results.iter().map(|r| (r.tx_id, r.shard_id)).collect();
    assert_eq!(seen, vec![(1, 2), (2, 0), (2, 2)]);
}

#[test]
fn defaults_are_as_documented() {
    assert_eq!(SequencerConfig::default_batch_flush_interval(), 1_000_000);
    assert_eq!(SchedulerKind::default(), SchedulerKind::CalvinLocking);
    assert_eq!(usize_to_u64(7), 7);
}

#[test]
fn settings_switch_profiles_on() {
    for value in ["1", "true", "TRUE", "yes", "On", " 1 ", "\ttrue\n", "\u{a0}on\u{3000}", "\u{85}1\u{2009}"] {
        assert!(profile_setting_is_on(value), "{}", value);
    }
    for value in ["", "0", "false", "11", "tru e", "off", "\u{200b}on", " \u{2028} "] {
        assert!(!profile_setting_is_on(value), "{}", value);
    }
    assert!(is_on_word("YES"));
    assert!(!is_on_word(" yes"));
}

#[test]
fn times_and_pairs_are_counted() {
    assert_eq!(clamp_ns(0), 1);
    assert_eq!(clamp_ns(17), 17);
    assert_eq!(clamp_ns(u128::MAX), u64::MAX);
    assert_eq!(plan_pair_count(0), 0);
    assert_eq!(plan_pair_count(1), 0);
    assert_eq!(plan_pair_count(5), 10);
    let mut set = OrdSet::new();
    set.insert(key("/a"));
    assert_eq!(key_count(&vec![set.clone(), OrdSet::new(), set]), 2);
    let mut stats = WorkerStageStats::default();
    stats.add_sample(3);
    stats.add_sample(2);
    assert_eq!((stats.sum_ns, stats.max_ns), (5, 3));
    stats.add_sample(u64::MAX);
    assert_eq!(stats.sum_ns, u64::MAX);
}

#[test]
fn workers_add_to_the_profile() {
    let mut record = new_scheduler_profile(SchedulerProfileScheduler::Aria, 2, 9, 1);
    assert_eq!((record.batch_id, record.shard_id, record.counters.tx_count), (2, 1, 9));
    let mut worker = CalvinWorkerProfile::default();
    worker.lock_wait_ns = 5;
    worker.remote_sent = 2;
    merge_calvin_worker_profile(&mut record, &worker);
    worker.lock_wait_ns = 3;
    merge_calvin_worker_profile(&mut record, &worker);
    assert_eq!(record.timings.lock_wait_sum_ns, 8);
    assert_eq!(record.timings.lock_wait_max_ns, 5);
    assert_eq!(record.counters.remote_read_messages_sent, 4);
    let mut worker = SccWorkerProfile::default();
    worker.effect_wait_ns = 6;
    worker.condition_skipped = true;
    worker.delta_op_count = 3;
    worker.remote_received = 1;
    merge_scc_worker_profile(&mut record, &worker);
    assert_eq!(record.timings.scc_effect_wait.max_ns, 6);
    assert_eq!(record.counters.condition_skipped_count, 1);
    assert_eq!(record.counters.delta_op_count, 3);
    assert_eq!(record.counters.remote_read_messages_received, 1);
}
