//! What a batch is planned to do: the two dependency graphs and, for each
//! transaction, how far its reads must look.

use crate::collections::OrdSet;
use crate::error::Result;
use crate::model::{Batch, OrderedTxView};
use crate::scc::tables;
use crate::scc::tables::{conflict_mask, predicted_path, semantic_tables, PathId, SemanticKey};
use vstd::prelude::*;

verus! {

/// A vertex of a dependency graph.
#[derive(Clone, Debug)]
pub struct DagNode {
    pub successors: OrdSet<usize>,
    pub predecessors: OrdSet<usize>,
}

/// A dependency graph over the transactions of a batch.
#[derive(Clone, Debug)]
pub struct SemanticDag {
    pub nodes: Vec<DagNode>,
}

/// What is planned for one transaction. A prefix bound is the last transaction
/// before it that it must see.
#[derive(Clone, Copy, Debug)]
pub struct SccTxPlan {
    pub predicted_path: PathId,
    pub effect_max_pred_index: Option<usize>,
    pub condition_max_pred_index: Option<usize>,
}

/// What is planned for a batch.
#[derive(Clone, Debug)]
pub struct SccBatchPlan {
    pub effect: SemanticDag,
    pub condition: SemanticDag,
    pub tx_plans: Vec<SccTxPlan>,
}

/// The part of a speculative execution.
#[derive(Clone, Copy, Debug, PartialEq, Eq, Structural)]
pub enum SccPhase {
    Effect,
    Condition,
}

impl SccTxPlan {
    /// The prefix bound of a phase.
    pub open spec fn bound(&self, phase: SccPhase) -> Option<usize> {
        match phase {
            SccPhase::Effect => self.effect_max_pred_index,
            SccPhase::Condition => self.condition_max_pred_index,
        }
    }

    /// Whether everything the condition phase must see was seen in the effect
    /// phase.
    pub fn effect_prefix_covers_condition(&self) -> (r: bool)
        ensures
            r == match self.condition_max_pred_index {
                None => true,
                Some(condition) => match self.effect_max_pred_index {
                    None => false,
                    Some(effect) => effect >= condition,
                },
            },
    {
        match (self.effect_max_pred_index, self.condition_max_pred_index) {
            (_, None) => true,
            (Some(effect), Some(condition)) => effect >= condition,
            (None, Some(_)) => false,
        }
    }
}

/// Transaction `j` must see transaction `i`.
pub open spec fn depends(txs: Seq<OrderedTxView>, i: int, j: int) -> bool {
    0 <= i < j < txs.len() && tables::conflicting(txs[i].op, txs[j].op)
}

/// `bound` is the last transaction before `limit` that `j` must see.
pub open spec fn last_before(
    txs: Seq<OrderedTxView>,
    j: int,
    limit: int,
    bound: Option<usize>,
) -> bool {
    match bound {
        None => forall|i: int| i < limit ==> !(#[trigger] depends(txs, i, j)),
        Some(m) => m < limit && depends(txs, m as int, j) && forall|i: int|
            m < i < limit ==> !(#[trigger] depends(txs, i, j)),
    }
}

impl SemanticDag {
    /// There is an edge from `i` to `j`.
    pub open spec fn edge(&self, i: int, j: int) -> bool {
        0 <= i < self.nodes.len() && 0 <= j < self.nodes.len()
            && self.nodes[i].successors@.contains(j as usize)
    }

    /// Every edge goes to a vertex, and is known at both its ends.
    pub open spec fn wf(&self) -> bool {
        &&& forall|i: int, j: usize|
            0 <= i < self.nodes.len() && #[trigger] self.nodes[i].successors@.contains(j) ==> j
                < self.nodes.len()
        &&& forall|i: int, j: usize|
            0 <= i < self.nodes.len() && #[trigger] self.nodes[i].predecessors@.contains(j) ==> j
                < self.nodes.len()
        &&& forall|i: int, j: int|
            0 <= i < self.nodes.len() && 0 <= j < self.nodes.len() ==> (
            self.nodes[i].successors@.contains(j as usize)
                <==> #[trigger] self.nodes[j].predecessors@.contains(#[trigger] (i as usize)))
    }

    /// The edges are those of `txs` among the pairs before `(i, j)`.
    spec fn built(&self, txs: Seq<OrderedTxView>, i: int, j: int) -> bool {
        &&& self.nodes.len() == txs.len()
        &&& forall|a: int, b: usize|
            0 <= a < txs.len() ==> (#[trigger] self.nodes[a].successors@.contains(b) <==> ((a < i
                || (a == i && b < j)) && depends(txs, a, b as int)))
        &&& forall|a: usize, b: int|
            0 <= b < txs.len() ==> (#[trigger] self.nodes[b].predecessors@.contains(a) <==> ((a
                < i || (a == i && b < j)) && depends(txs, a as int, b)))
    }

    fn new(len: usize) -> (r: Self)
        ensures
            r.nodes.len() == len,
            forall|i: int|
                0 <= i < len ==> (#[trigger] r.nodes[i]).successors@ == Set::<usize>::empty()
                    && r.nodes[i].predecessors@ == Set::<usize>::empty(),
    {
        let mut nodes: Vec<DagNode> = Vec::new();
        let mut i: usize = 0;
        while i < len
            invariant
                i <= len,
                nodes.len() == i,
                forall|k: int|
                    0 <= k < i ==> (#[trigger] nodes[k]).successors@ == Set::<usize>::empty()
                        && nodes[k].predecessors@ == Set::<usize>::empty(),
            decreases len - i,
        {
            nodes.push(DagNode { successors: OrdSet::new(), predecessors: OrdSet::new() });
            i += 1;
        }
        SemanticDag { nodes }
    }

    fn add_edge(&mut self, from: usize, to: usize)
        requires
            from < to < old(self).nodes.len(),
        ensures
            final(self).nodes.len() == old(self).nodes.len(),
            forall|a: int|
                0 <= a < old(self).nodes.len() ==> (#[trigger] final(self).nodes[a]).successors@
                    == (if a == from {
                    old(self).nodes[a].successors@.insert(to)
                } else {
                    old(self).nodes[a].successors@
                }) && final(self).nodes[a].predecessors@ == (if a == to {
                    old(self).nodes[a].predecessors@.insert(from)
                } else {
                    old(self).nodes[a].predecessors@
                }),
    {
        let _ = self.nodes[from].successors.insert(to);
        let _ = self.nodes[to].predecessors.insert(from);
    }
}

/// The later of the bound so far and `pred`.
fn update_max_pred(slot: Option<usize>, pred: usize) -> (r: Option<usize>)
    ensures
        r == (match slot {
            Some(current) => if current > pred {
                Some(current)
            } else {
                Some(pred)
            },
            None => Some(pred),
        }),
{
    match slot {
        Some(current) => if current > pred {
            Some(current)
        } else {
            Some(pred)
        },
        None => Some(pred),
    }
}

/// `plan` is the plan of `txs`.
pub open spec fn plans(plan: SccBatchPlan, txs: Seq<OrderedTxView>) -> bool {
    &&& plan.effect.nodes.len() == txs.len()
    &&& plan.condition.nodes.len() == txs.len()
    &&& plan.tx_plans.len() == txs.len()
    &&& plan.effect.wf()
    &&& plan.condition.wf()
    &&& forall|i: int, j: int| #[trigger] plan.effect.edge(i, j) <==> depends(txs, i, j)
    &&& forall|i: int, j: int| #[trigger] plan.condition.edge(i, j) <==> depends(txs, i, j)
    &&& forall|j: int|
        0 <= j < txs.len() ==> {
            &&& (#[trigger] plan.tx_plans[j]).predicted_path == tables::success_path(txs[j].op)
            &&& last_before(txs, j, j, plan.tx_plans[j].effect_max_pred_index)
            &&& last_before(txs, j, j, plan.tx_plans[j].condition_max_pred_index)
        }
}

/// Plans a batch: an edge from each transaction to every later one that must see
/// it.
pub fn build_scc_batch_plan(batch: &Batch) -> (r: Result<SccBatchPlan>)
    ensures
        match r {
            Ok(plan) => plans(plan, batch@.txs),
            Err(_) => false,
        },
{
    let tables = semantic_tables();
    let len = batch.txs.len();
    let ghost txs = batch@.txs;
    let mut effect = SemanticDag::new(len);
    let mut condition = SemanticDag::new(len);
    let mut tx_plans: Vec<SccTxPlan> = Vec::new();
    let mut k: usize = 0;
    while k < len
        invariant
            k <= len,
            len == batch.txs.len(),
            txs == batch@.txs,
            tx_plans.len() == k,
            forall|j: int|
                0 <= j < k ==> (#[trigger] tx_plans[j]).predicted_path == tables::success_path(
                    txs[j].op,
                ) && tx_plans[j].effect_max_pred_index is None
                    && tx_plans[j].condition_max_pred_index is None,
        decreases len - k,
    {
        tx_plans.push(
            SccTxPlan {
                predicted_path: predicted_path(&batch.txs[k].op),
                effect_max_pred_index: None,
                condition_max_pred_index: None,
            },
        );
        k += 1;
    }
    let mut i: usize = 0;
    while i < len
        invariant
            i <= len,
            len == batch.txs.len(),
            txs == batch@.txs,
            tx_plans.len() == len,
            effect.built(txs, i as int, 0),
            condition.built(txs, i as int, 0),
            forall|key: SemanticKey| #[trigger]
                tables.effect.conflicts(key) == !tables::compatible(key),
            forall|key: SemanticKey| #[trigger]
                tables.condition.conflicts(key) == !tables::compatible(key),
            forall|b: int|
                0 <= b < len ==> (#[trigger] tx_plans[b]).predicted_path == tables::success_path(
                    txs[b].op,
                ) && last_before(txs, b, i as int, tx_plans[b].effect_max_pred_index)
                    && last_before(txs, b, i as int, tx_plans[b].condition_max_pred_index),
        decreases len - i,
    {
        let mut j: usize = i + 1;
        while j < len
            invariant
                i < j <= len,
                len == batch.txs.len(),
                txs == batch@.txs,
                tx_plans.len() == len,
                effect.built(txs, i as int, j as int),
                condition.built(txs, i as int, j as int),
                forall|key: SemanticKey| #[trigger]
                    tables.effect.conflicts(key) == !tables::compatible(key),
                forall|key: SemanticKey| #[trigger]
                    tables.condition.conflicts(key) == !tables::compatible(key),
                forall|b: int|
                    0 <= b < len ==> (#[trigger] tx_plans[b]).predicted_path
                        == tables::success_path(txs[b].op) && last_before(
                        txs,
                        b,
                        if b < j {
                            i + 1
                        } else {
                            i as int
                        },
                        tx_plans[b].effect_max_pred_index,
                    ) && last_before(
                        txs,
                        b,
                        if b < j {
                            i + 1
                        } else {
                            i as int
                        },
                        tx_plans[b].condition_max_pred_index,
                    ),
            decreases len - j,
        {
            let mask = conflict_mask(&batch.txs[i].op, &batch.txs[j].op)?;
            let key = SemanticKey {
                path1: tx_plans[i].predicted_path,
                path2: tx_plans[j].predicted_path,
                conflict_mask: mask,
            };
            assert(txs[i as int] == batch.txs@[i as int]@ && txs[j as int] == batch.txs@[j as int]@);
            let ghost conflict = depends(txs, i as int, j as int);
            assert(conflict == !tables::compatible(key));
            let mut plan = tx_plans[j];
            if tables.effect.has_conflict(&key) {
                effect.add_edge(i, j);
                plan.effect_max_pred_index = update_max_pred(plan.effect_max_pred_index, i);
            }
            if tables.condition.has_conflict(&key) {
                condition.add_edge(i, j);
                plan.condition_max_pred_index = update_max_pred(plan.condition_max_pred_index, i);
            }
            tx_plans.set(j, plan);
            j += 1;
        }
        i += 1;
    }
    Ok(SccBatchPlan { effect, condition, tx_plans })
}

} // verus!
