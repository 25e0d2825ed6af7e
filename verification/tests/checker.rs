use calvinfs_demo::checker::{
    assert_aria_tx_results_consistent, assert_scc_reorders_consistent, assert_state_matches,
    assert_tx_results_consistent, merge_shard_states, reference_execute_batches,
    reference_execute_scc_reordered_batches,
};
use calvinfs_demo::collections::OrdMap;
use calvinfs_demo::error::CheckerFault;
use calvinfs_demo::executor::derive_read_write_set;
use calvinfs_demo::model::{
    Batch, BatchId, FsOp, Inode, Key, OrderedTx, SccReorderRecord, ShardId, TxResult,
    TxResultRecord,
};
use calvinfs_demo::router::ShardLayout;
use calvinfs_demo::Error;

fn key(path: &str) -> Key {
    Key::new(path.to_string()).unwrap()
}

fn batch(batch_id: BatchId, first_tx: u64, ops: Vec<FsOp>) -> Batch {
    let txs = ops
        .into_iter()
        .enumerate()
        .map(|(i, op)| {
            let (read_set, write_set) = derive_read_write_set(&op).unwrap();
            OrderedTx {
                tx_id: first_tx + i as u64,
                batch_index: i as u32,
                op,
                read_set,
                write_set,
            }
        })
        .collect();
    Batch { batch_id, txs }
}

fn mkdir(path: &str) -> FsOp {
    FsOp::Mkdir { path: key(path) }
}

fn create(path: &str) -> FsOp {
    FsOp::Create { path: key(path) }
}

fn order(batch_id: BatchId, successes: Vec<usize>, fallbacks: Vec<usize>) -> SccReorderRecord {
    SccReorderRecord {
        batch_id,
        speculative_success_indices: successes,
        fallback_indices: fallbacks,
    }
}

fn orders(records: Vec<SccReorderRecord>) -> OrdMap<BatchId, SccReorderRecord> {
    let mut map = OrdMap::new();
    for record in records {
        map.insert(record.batch_id, record);
    }
    map
}

fn two_batches() -> Vec<Batch> {
    vec![
        batch(1, 1, vec![mkdir("/"), mkdir("/d")]),
        batch(2, 3, vec![create("/d/a"), FsOp::Unlink { path: key("/d/a") }]),
    ]
}

#[test]
fn batches_run_one_after_the_other() {
    let state = reference_execute_batches(&two_batches());
    assert_eq!(state.len(), 2);
    assert_eq!(state.get(&key("/")), Some(&Inode::directory(1)));
    assert_eq!(state.get(&key("/d")), Some(&Inode::directory(0)));
    assert!(reference_execute_batches(&[]).is_empty());
}

#[test]
fn reordered_batches_run_in_the_order_noted() {
    let batches = two_batches();
    let kept = orders(vec![order(1, vec![0, 1], vec![]), order(2, vec![0, 1], vec![])]);
    let state = reference_execute_scc_reordered_batches(&batches, &kept).unwrap();
    assert_state_matches(&reference_execute_batches(&batches), &state).unwrap();
    let swapped = orders(vec![order(1, vec![0, 1], vec![]), order(2, vec![1], vec![0])]);
    let state = reference_execute_scc_reordered_batches(&batches, &swapped).unwrap();
    assert_eq!(state.get(&key("/d/a")), Some(&Inode::file()));
    assert_eq!(state.get(&key("/d")), Some(&Inode::directory(1)));
}

fn reordered_fault(records: Vec<SccReorderRecord>) -> CheckerFault {
    match reference_execute_scc_reordered_batches(&two_batches(), &orders(records)) {
        Err(Error::Checker(fault)) => fault,
        _ => panic!("the order was accepted"),
    }
}

#[test]
fn wrong_orders_are_refused() {
    let good = || order(1, vec![0, 1], vec![]);
    assert!(matches!(
        reordered_fault(vec![good()]),
        CheckerFault::MissingReorder { batch_id: 2 }
    ));
    assert!(matches!(
        reordered_fault(vec![good(), order(2, vec![0, 5], vec![])]),
        CheckerFault::ReorderOutOfRange { batch_id: 2, index: 5, len: 2 }
    ));
    assert!(matches!(
        reordered_fault(vec![good(), order(2, vec![0], vec![0])]),
        CheckerFault::ReorderDuplicate { batch_id: 2, index: 0 }
    ));
    match reordered_fault(vec![good(), order(2, vec![0], vec![])]) {
        CheckerFault::ReorderIncomplete { batch_id, len, seen } => {
            assert_eq!((batch_id, len, seen.len()), (2, 2, 1));
        }
        _ => panic!("another fault"),
    }
    let mut mislabelled = orders(vec![good()]);
    mislabelled.insert(2, order(7, vec![0, 1], vec![]));
    assert!(matches!(
        reference_execute_scc_reordered_batches(&two_batches(), &mislabelled),
        Err(Error::Checker(CheckerFault::ReorderBatchMismatch { record: 7, batch: 2 }))
    ));
}

#[test]
fn orders_of_the_shards_are_united() {
    let batches = two_batches();
    let united = assert_scc_reorders_consistent(
        &batches,
        vec![
            (0, vec![order(1, vec![0, 1], vec![]), order(2, vec![0], vec![1])]),
            (1, vec![order(1, vec![1], vec![0]), order(2, vec![0, 1], vec![])]),
        ],
    )
    .unwrap();
    assert_eq!(united.len(), 2);
    let first = united.get(&1).unwrap();
    assert_eq!(first.speculative_success_indices, vec![1]);
    assert_eq!(first.fallback_indices, vec![0]);
    let second = united.get(&2).unwrap();
    assert_eq!(second.speculative_success_indices, vec![0]);
    assert_eq!(second.fallback_indices, vec![1]);
}

fn report_fault(reports: Vec<(ShardId, Vec<SccReorderRecord>)>) -> CheckerFault {
    match assert_scc_reorders_consistent(&two_batches(), reports) {
        Err(Error::Checker(fault)) => fault,
        _ => panic!("the reports were accepted"),
    }
}

#[test]
fn wrong_reports_of_orders_are_refused() {
    let good = || order(1, vec![0, 1], vec![]);
    assert!(matches!(
        report_fault(vec![(3, vec![good(), order(9, vec![], vec![])])]),
        CheckerFault::UnknownBatch { shard_id: 3, batch_id: 9 }
    ));
    assert!(matches!(
        report_fault(vec![(3, vec![good(), good()])]),
        CheckerFault::DuplicateReorder { shard_id: 3 }
    ));
    match report_fault(vec![(3, vec![good()])]) {
        CheckerFault::ReorderBatchesMismatch { shard_id, expected, found } => {
            assert_eq!((shard_id, expected.len(), found.len()), (3, 2, 1));
        }
        _ => panic!("another fault"),
    }
    let twice = vec![batch(1, 1, vec![mkdir("/")]), batch(1, 2, vec![mkdir("/a")])];
    assert!(matches!(
        assert_scc_reorders_consistent(&twice, vec![]),
        Err(Error::Checker(CheckerFault::DuplicateBatch { batch_id: 1 }))
    ));
}

fn part(path: &str) -> OrdMap<Key, Inode> {
    let mut state = OrdMap::new();
    state.insert(key(path), Inode::file());
    state
}

#[test]
fn states_of_the_shards_are_merged() {
    let layout = ShardLayout::new(2);
    let home = layout.shard_for_key(&key("/a"));
    let merged = merge_shard_states(&layout, vec![(home, part("/a"))]).unwrap();
    assert_eq!(merged.get(&key("/a")), Some(&Inode::file()));
    match merge_shard_states(&layout, vec![(1 - home, part("/a"))]) {
        Err(Error::Checker(CheckerFault::KeyOnWrongShard { key, shard_id, owner })) => {
            assert_eq!((key.as_str(), shard_id, owner), ("/a", 1 - home, home));
        }
        _ => panic!("the state was accepted"),
    }
    match merge_shard_states(&layout, vec![(home, part("/a")), (home, part("/a"))]) {
        Err(Error::Checker(CheckerFault::KeyOnTwoShards { key })) => {
            assert_eq!(key.as_str(), "/a");
        }
        _ => panic!("the states were accepted"),
    }
    assert!(assert_state_matches(&part("/a"), &part("/a")).is_ok());
    assert!(matches!(
        assert_state_matches(&part("/a"), &part("/b")),
        Err(Error::Checker(CheckerFault::StateMismatch { .. }))
    ));
}

fn record(tx_id: u64, shard_id: ShardId, result: TxResult) -> TxResultRecord {
    TxResultRecord { tx_id, shard_id, result }
}

#[test]
fn results_of_the_shards_are_compared() {
    let layout = ShardLayout::new(4);
    let batches = vec![batch(1, 1, vec![create("/d/b")])];
    let active = layout.participants(&batches[0].txs[0]).active;
    let all: Vec<TxResultRecord> = (0..active.len())
        .map(|i| record(1, *active.at(i), TxResult::NotFound))
        .collect();
    assert!(all.len() > 1);
    assert!(assert_tx_results_consistent(&layout, &batches, &all).is_ok());
    let fault = |records: Vec<TxResultRecord>| {
        match assert_tx_results_consistent(&layout, &batches, &records) {
            Err(Error::Checker(fault)) => fault,
            _ => panic!("the results were accepted"),
        }
    };
    assert!(matches!(fault(vec![]), CheckerFault::MissingResults { tx_id: 1 }));
    assert!(matches!(
        fault(vec![all[0], all[0]]),
        CheckerFault::DuplicateResult { tx_id: 1, .. }
    ));
    assert!(matches!(
        fault(vec![all[0]]),
        CheckerFault::ResultShardsMismatch { tx_id: 1, .. }
    ));
    let mut mixed = all.clone();
    mixed[0].result = TxResult::Success;
    match fault(mixed) {
        CheckerFault::ResultDisagreement { tx_id, results } => {
            assert_eq!((tx_id, results.len()), (1, active.len()));
        }
        _ => panic!("another fault"),
    }
}

#[test]
fn results_on_snapshots_come_from_one_shard() {
    let layout = ShardLayout::new(4);
    let batches = vec![batch(1, 6, vec![create("/d/a")])];
    let good = vec![record(6, 2, TxResult::NotFound)];
    assert!(assert_aria_tx_results_consistent(&layout, &batches, &good).is_ok());
    let astray = vec![record(6, 1, TxResult::NotFound)];
    assert!(matches!(
        assert_aria_tx_results_consistent(&layout, &batches, &astray),
        Err(Error::Checker(CheckerFault::ResultShardsMismatch { tx_id: 6, .. }))
    ));
    assert!(matches!(
        assert_aria_tx_results_consistent(&layout, &batches, &[]),
        Err(Error::Checker(CheckerFault::MissingResults { tx_id: 6 }))
    ));
    let twice = vec![good[0], good[0]];
    assert!(matches!(
        assert_aria_tx_results_consistent(&layout, &batches, &twice),
        Err(Error::Checker(CheckerFault::DuplicateResult { tx_id: 6, shard_id: 2 }))
    ));
}

#[test]
fn a_reordered_run_is_the_run_of_the_rearranged_batches() {
    let batches = vec![
        batch(1, 1, vec![create("/d/a"), mkdir("/d"), mkdir("/")]),
        batch(2, 4, vec![create("/d/b"), FsOp::Rename { src: key("/d/a"), dst: key("/c") }]),
    ];
    let rearranged = vec![
        batch(1, 1, vec![mkdir("/"), mkdir("/d"), create("/d/a")]),
        batch(2, 4, vec![FsOp::Rename { src: key("/d/a"), dst: key("/c") }, create("/d/b")]),
    ];
    let recorded = orders(vec![order(1, vec![2, 1], vec![0]), order(2, vec![1], vec![0])]);
    let state = reference_execute_scc_reordered_batches(&batches, &recorded).unwrap();
    let serial = reference_execute_batches(&rearranged);
    assert_state_matches(&serial, &state).unwrap();
    let listed: Vec<(&str, u64)> =
        (0..state.len()).map(|i| (state.key_at(i).as_str(), state.value_at(i).child_count)).collect();
    assert_eq!(listed, vec![("/", 2), ("/c", 0), ("/d", 1), ("/d/b", 0)]);
}

#[test]
fn directories_count_their_entries_whatever_sets_are_named() {
    let mut batches = two_batches();
    batches[1].txs[0].read_set.remove(&key("/d"));
    batches[1].txs[1].read_set.insert(key("/"));
    let state = reference_execute_batches(&batches);
    assert_eq!(state.len(), 2);
    assert_eq!(state.get(&key("/")).unwrap().child_count, 1);
    assert_eq!(state.get(&key("/d")).unwrap().child_count, 0);
}
