use calvinfs_demo::collections::{OrdMap, OrdSet};
use calvinfs_demo::model::{
    Batch, FsOp, Inode, Key, NodeKind, OrderedTx, ReadValue, TxExecutionOutput, TxId, TxResult,
    WriteOp,
};
use calvinfs_demo::scc::{
    apply_delta_to_state, build_scc_batch_plan, conflict_mask, materialized_local_read,
    output_to_delta, semantic_tables, CommitSequence, CommitSlotState, ConflictMask, DeltaOp,
    InodeIntegerField, MaterializedRead, PathId, SccDagRuntime, SccPhase, SccTxPlan, SemanticKey,
    TxDelta,
};
use std::sync::Arc;

fn key(path: &str) -> Key {
    Key::new(path.to_string()).unwrap()
}

fn keys(paths: &[&str]) -> OrdSet<Key> {
    let mut set = OrdSet::new();
    for path in paths {
        set.insert(key(path));
    }
    set
}

fn create_tx(tx_id: TxId, path: &str) -> OrderedTx {
    let path = key(path);
    let parent = path.parent().unwrap();
    let mut set = OrdSet::new();
    set.insert(parent);
    set.insert(path.clone());
    OrderedTx {
        tx_id,
        batch_index: (tx_id - 1) as u32,
        op: FsOp::Create { path },
        read_set: set.clone(),
        write_set: set,
    }
}

fn mkdir_tx(tx_id: TxId, path: &str) -> OrderedTx {
    let path = key(path);
    let mut set = OrdSet::new();
    if path.as_str() != "/" {
        set.insert(path.parent().unwrap());
    }
    set.insert(path.clone());
    OrderedTx {
        tx_id,
        batch_index: (tx_id - 1) as u32,
        op: FsOp::Mkdir { path },
        read_set: set.clone(),
        write_set: set,
    }
}

#[test]
fn same_parent_different_name_create_has_no_conflict() {
    let tables = semantic_tables();
    let mask = conflict_mask(
        &FsOp::Create { path: key("/d/a") },
        &FsOp::Create { path: key("/d/b") },
    )
    .unwrap();
    assert_eq!(mask, ConflictMask::SAME_PARENT_DIFFERENT_TARGET);
    let key = SemanticKey {
        path1: PathId::CreateSuccess,
        path2: PathId::CreateSuccess,
        conflict_mask: mask,
    };
    assert!(!tables.effect.has_conflict(&key));
    assert!(!tables.condition.has_conflict(&key));
}

#[test]
fn parent_create_before_child_create_conflicts() {
    let tables = semantic_tables();
    let mask = conflict_mask(
        &FsOp::Mkdir { path: key("/d") },
        &FsOp::Create { path: key("/d/a") },
    )
    .unwrap();
    assert_eq!(mask, ConflictMask::LHS_TARGET_IS_RHS_PARENT);
    let key = SemanticKey {
        path1: PathId::MkdirSuccess,
        path2: PathId::CreateSuccess,
        conflict_mask: mask,
    };
    assert!(tables.effect.has_conflict(&key));
    assert!(tables.condition.has_conflict(&key));
}

#[test]
fn batch_plan_omits_same_parent_different_target_edges() {
    let batch = Batch {
        batch_id: 1,
        txs: vec![create_tx(1, "/d/a"), create_tx(2, "/d/b")],
    };
    let plan = build_scc_batch_plan(&batch).unwrap();
    assert!(plan.effect.nodes[0].successors.is_empty());
    assert!(plan.condition.nodes[0].successors.is_empty());
    assert_eq!(plan.tx_plans[1].effect_max_pred_index, None);
    assert_eq!(plan.tx_plans[1].condition_max_pred_index, None);
}

#[test]
fn batch_plan_adds_parent_before_child_edges_and_prefix_bounds() {
    let batch = Batch {
        batch_id: 1,
        txs: vec![mkdir_tx(1, "/d"), create_tx(2, "/d/a")],
    };
    let plan = build_scc_batch_plan(&batch).unwrap();
    assert!(plan.effect.nodes[0].successors.contains(&1));
    assert!(plan.condition.nodes[0].successors.contains(&1));
    assert_eq!(plan.tx_plans[1].effect_max_pred_index, Some(0));
    assert_eq!(plan.tx_plans[1].condition_max_pred_index, Some(0));
}

#[test]
fn effect_prefix_cover_determines_condition_skip() {
    let mut plan = SccTxPlan {
        predicted_path: PathId::CreateSuccess,
        effect_max_pred_index: None,
        condition_max_pred_index: None,
    };
    assert!(plan.effect_prefix_covers_condition());

    plan.effect_max_pred_index = Some(2);
    assert!(plan.effect_prefix_covers_condition());

    plan.condition_max_pred_index = Some(1);
    assert!(plan.effect_prefix_covers_condition());

    plan.condition_max_pred_index = Some(2);
    assert!(plan.effect_prefix_covers_condition());

    plan.condition_max_pred_index = Some(3);
    assert!(!plan.effect_prefix_covers_condition());

    plan.effect_max_pred_index = None;
    plan.condition_max_pred_index = Some(0);
    assert!(!plan.effect_prefix_covers_condition());
}

#[test]
fn delta_create_same_parent_merges_child_count() {
    let tx = create_tx(1, "/d/a");
    let mut reads = OrdMap::new();
    reads.insert(key("/d"), ReadValue::Present(Inode::directory(0)));
    reads.insert(key("/d/a"), ReadValue::Missing);
    let output = TxExecutionOutput {
        result: TxResult::Success,
        writes: vec![
            WriteOp::Put {
                key: key("/d"),
                value: Inode::directory(1),
            },
            WriteOp::Put {
                key: key("/d/a"),
                value: Inode::file(),
            },
        ],
    };
    let delta = output_to_delta(&tx, &reads, output).unwrap();
    assert_eq!(
        delta.ops,
        vec![
            DeltaOp::AddIntegerField {
                key: key("/d"),
                field: InodeIntegerField::ChildCount,
                delta: 1,
            },
            DeltaOp::Put {
                key: key("/d/a"),
                value: Inode::file(),
            },
        ]
    );

    let mut state = OrdMap::new();
    state.insert(key("/d"), Inode::directory(41));
    apply_delta_to_state(&mut state, &delta).unwrap();
    assert_eq!(state.get(&key("/d")).unwrap().child_count, 42);
    assert_eq!(state.get(&key("/d/a")).unwrap().kind, NodeKind::File);
}

#[test]
fn materialized_read_prefix_failed_slot_forces_failure_without_write_intersection() {
    let mut commit_seq = CommitSequence::new(2);
    commit_seq
        .set_terminal_once(0, CommitSlotState::Failed)
        .unwrap();
    let tx_plan = SccTxPlan {
        predicted_path: PathId::CreateSuccess,
        effect_max_pred_index: Some(0),
        condition_max_pred_index: None,
    };
    let local_read_keys = keys(&["/unrelated"]);
    let mut base = OrdMap::new();
    base.insert(key("/unrelated"), ReadValue::Missing);
    let writes_by_tx = vec![keys(&["/d/a"])];
    let result = materialized_local_read(
        &tx_plan,
        SccPhase::Effect,
        &local_read_keys,
        &writes_by_tx,
        &base,
        &commit_seq,
    );
    assert!(result.is_err());
}

#[test]
fn materialized_read_applies_only_intersecting_deltas() {
    let mut commit_seq = CommitSequence::new(2);
    let delta = TxDelta {
        ops: vec![DeltaOp::AddIntegerField {
            key: key("/d"),
            field: InodeIntegerField::ChildCount,
            delta: 1,
        }],
    };
    commit_seq
        .set_terminal_once(0, CommitSlotState::Delta(Arc::new(delta)))
        .unwrap();
    let tx_plan = SccTxPlan {
        predicted_path: PathId::CreateSuccess,
        effect_max_pred_index: Some(0),
        condition_max_pred_index: None,
    };
    let local_read_keys = keys(&["/d"]);
    let mut base = OrdMap::new();
    base.insert(key("/d"), ReadValue::Present(Inode::directory(0)));
    let writes_by_tx = vec![keys(&["/d"])];
    let result = materialized_local_read(
        &tx_plan,
        SccPhase::Effect,
        &local_read_keys,
        &writes_by_tx,
        &base,
        &commit_seq,
    )
    .unwrap();
    let reads = match result {
        MaterializedRead::Ready(reads) => reads,
        MaterializedRead::WaitFor(index) => panic!("still waiting for slot {index}"),
    };
    assert_eq!(
        reads.get(&key("/d")),
        Some(&ReadValue::Present(Inode::directory(1)))
    );
}

#[test]
fn dag_runtime_notifies_initial_and_successor_ready() {
    let batch = Batch {
        batch_id: 1,
        txs: vec![
            mkdir_tx(1, "/d"),
            create_tx(2, "/d/a"),
            create_tx(3, "/other/a"),
        ],
    };
    let plan = build_scc_batch_plan(&batch).unwrap();
    let mut runtime = SccDagRuntime::new(&plan);
    let ready = runtime.start().unwrap();

    assert!(ready.effect.contains(&0));
    assert!(ready.effect.contains(&2));
    assert!(!ready.effect.contains(&1));

    let ready = runtime.finish_vertex(0).unwrap();
    assert!(ready.effect.contains(&1));
}
