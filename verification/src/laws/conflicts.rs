//! Which transactions wait for each other, and which never do.

use crate::executor;
use crate::laws::names;
use crate::laws::outcomes;
use crate::model::{FsOpView, OrderedTxView, ReadValue, TxResult};
use crate::path;
use crate::path::Path;
use crate::scc::condition;
use crate::scc::plan;
use crate::scc::plan::SccBatchPlan;
use crate::scc::tables;
use crate::scc::tables::{ConflictMask, PathId};
use crate::state::{Reads, State};
use vstd::prelude::*;

verus! {

/// One of two paths is the other or lies below it.
pub open spec fn nested(a: Path, b: Path) -> bool {
    a == b || path::strict_ancestor(a, b) || path::strict_ancestor(b, a)
}

/// `op` names the root.
pub open spec fn at_root(op: FsOpView) -> bool {
    match op {
        FsOpView::Rename { src, dst } => src == seq!['/'] || dst == seq!['/'],
        FsOpView::Create { path } | FsOpView::Mkdir { path } | FsOpView::Unlink {
            path,
        } | FsOpView::Rmdir { path } | FsOpView::Stat { path } => path == seq!['/'],
    }
}

/// The path that an operation other than a rename is about.
pub open spec fn about(op: FsOpView) -> Path {
    match op {
        FsOpView::Rename { src, .. } => src,
        FsOpView::Create { path } | FsOpView::Mkdir { path } | FsOpView::Unlink {
            path,
        } | FsOpView::Rmdir { path } | FsOpView::Stat { path } => path,
    }
}

/// Two operations are to be kept in order: one of them renames or names the root, or one
/// of them changes something and their paths are nested.
pub open spec fn in_the_way(a: FsOpView, b: FsOpView) -> bool {
    ||| a is Rename || b is Rename
    ||| at_root(a) || at_root(b)
    ||| !(a is Stat && b is Stat) && nested(about(a), about(b))
}

/// A transaction waits for an earlier one if and only if the two are to be kept in order;
/// which comes first does not matter.
pub proof fn lemma_conflicts(a: FsOpView, b: FsOpView)
    requires
        a.valid(),
        b.valid(),
    ensures
        tables::conflicting(a, b) <==> in_the_way(a, b),
        tables::conflicting(a, b) == tables::conflicting(b, a),
{
    assert(path::root_path() =~= seq!['/']);
    if !at_root(b) {
        path::lemma_parent_valid(about(b));
    }
    if !at_root(a) {
        path::lemma_parent_valid(about(a));
    }
}

/// A plan holds an edge from one transaction to another, in both graphs, if and only if it
/// is the earlier one and the two are to be kept in order. A transaction looks back to the
/// last of those, and to none where there are none.
pub proof fn lemma_plan_edges(plan: SccBatchPlan, txs: Seq<OrderedTxView>, i: int, j: int)
    requires
        plan::plans(plan, txs),
        0 <= i < txs.len(),
        0 <= j < txs.len(),
        txs.len() <= usize::MAX,
        forall|k: int| 0 <= k < txs.len() ==> (#[trigger] txs[k]).op.valid(),
    ensures
        plan.effect.nodes[i].successors@.contains(j as usize) <==> i < j && in_the_way(
            txs[i].op,
            txs[j].op,
        ),
        plan.effect.nodes[j].predecessors@.contains(i as usize) <==> i < j && in_the_way(
            txs[i].op,
            txs[j].op,
        ),
        plan.condition.nodes[i].successors@.contains(j as usize) <==> i < j && in_the_way(
            txs[i].op,
            txs[j].op,
        ),
        plan.condition.nodes[j].predecessors@.contains(i as usize) <==> i < j && in_the_way(
            txs[i].op,
            txs[j].op,
        ),
        plan.tx_plans[j].effect_max_pred_index == plan.tx_plans[j].condition_max_pred_index,
        i < j && in_the_way(txs[i].op, txs[j].op) ==> {
            &&& plan.tx_plans[j].effect_max_pred_index is Some
            &&& plan.tx_plans[j].effect_max_pred_index->0 >= i
        },
        plan.tx_plans[j].effect_max_pred_index is Some ==> {
            let last = plan.tx_plans[j].effect_max_pred_index->0 as int;
            last < j && in_the_way(txs[last].op, txs[j].op)
        },
{
    lemma_conflicts(txs[i].op, txs[j].op);
    assert(plan.effect.edge(i, j) <==> plan::depends(txs, i, j));
    assert(plan.condition.edge(i, j) <==> plan::depends(txs, i, j));
    assert(i == i as usize as int && j == j as usize as int);
    assert(plan.effect.nodes[j].predecessors@.contains(i as usize)
        == plan.effect.nodes[i].successors@.contains(j as usize));
    assert(plan.condition.nodes[j].predecessors@.contains(i as usize)
        == plan.condition.nodes[i].successors@.contains(j as usize));
    let tx_plan = plan.tx_plans[j];
    assert(plan::last_before(txs, j, j, tx_plan.effect_max_pred_index));
    assert(plan::last_before(txs, j, j, tx_plan.condition_max_pred_index));
    if tx_plan.effect_max_pred_index is Some {
        let last = tx_plan.effect_max_pred_index->0 as int;
        assert(plan::depends(txs, last, j));
        lemma_conflicts(txs[last].op, txs[j].op);
    }
    if tx_plan.condition_max_pred_index is Some {
        assert(plan::depends(txs, tx_plan.condition_max_pred_index->0 as int, j));
    }
    if i < j && in_the_way(txs[i].op, txs[j].op) {
        assert(plan::depends(txs, i, j));
    }
}

/// Looks never wait for each other, but for the root.
pub proof fn lemma_looks_never_wait(a: Path, b: Path)
    requires
        path::valid_path(a),
        path::valid_path(b),
        a != seq!['/'],
        b != seq!['/'],
    ensures
        !tables::conflicting(FsOpView::Stat { path: a }, FsOpView::Stat { path: b }),
{
    lemma_conflicts(FsOpView::Stat { path: a }, FsOpView::Stat { path: b });
}

/// What neither renames nor names the root, and has no nested path, never waits: so it is
/// of operations in different directories, and of different entries of one.
pub proof fn lemma_apart_never_waits(a: FsOpView, b: FsOpView)
    requires
        a.valid(),
        b.valid(),
        !(a is Rename) && !(b is Rename),
        !at_root(a) && !at_root(b),
        !nested(about(a), about(b)),
    ensures
        !tables::conflicting(a, b),
{
    lemma_conflicts(a, b);
}

/// Whoever may write a key that another reads, and neither is just one more or one less
/// entry of the same directory, keeps the other waiting.
pub proof fn lemma_shared_keys_wait(a: FsOpView, b: FsOpView, key: Path)
    requires
        a.valid(),
        b.valid(),
        executor::write_keys(a).contains(key),
        executor::read_keys(b).contains(key),
        !(path::parent_of(about(a)) == key && path::parent_of(about(b)) == key),
    ensures
        tables::conflicting(a, b),
{
    let root: Path = seq!['/'];
    assert(path::root_path() =~= root);
    lemma_conflicts(a, b);
    if !in_the_way(a, b) {
        let p = about(a);
        let q = about(b);
        names::lemma_below(p, q);
        names::lemma_below(q, p);
    }
}

/// How two operations relate: the root counts first, then a rename, then their paths.
pub proof fn lemma_relation(a: FsOpView, b: FsOpView)
    requires
        a.valid(),
        b.valid(),
    ensures
        ({
            let p = about(a);
            let q = about(b);
            let mask = tables::relation(a, b);
            let rooted = at_root(a) || at_root(b);
            let moved = a is Rename || b is Rename;
            &&& mask == ConflictMask::RootInvolved <==> rooted
            &&& mask == ConflictMask::RenameInvolved <==> moved && !rooted
            &&& !rooted && !moved ==> {
                &&& mask == ConflictMask::SameTarget <==> p == q
                &&& mask == ConflictMask::LhsTargetIsRhsParent <==> path::parent_of(q) == p
                &&& mask == ConflictMask::AncestorDescendant <==> p != q && nested(p, q)
                    && path::parent_of(q) != p
                &&& mask == ConflictMask::SameParentDifferentTarget <==> p != q
                    && path::parent_of(p) == path::parent_of(q)
                &&& mask == ConflictMask::IndependentSubtree <==> !nested(p, q)
                    && path::parent_of(p) != path::parent_of(q)
            }
        }),
{
    let root: Path = seq!['/'];
    assert(path::root_path() =~= root);
    if !at_root(a) && !at_root(b) && !(a is Rename) && !(b is Rename) {
        let p = about(a);
        let q = about(b);
        path::lemma_parent_valid(p);
        path::lemma_parent_valid(q);
        names::lemma_below(p, q);
        names::lemma_below(q, p);
        if p != q && path::parent_of(p) == path::parent_of(q) {
            path::lemma_siblings(p, q);
            path::lemma_siblings(q, p);
        }
    }
}

/// The bits of the relations: one for each, but that two entries of one directory have the
/// bits for the same parent and for different targets.
pub proof fn lemma_relation_bits()
    ensures
        ConflictMask::SameTarget.bit_set() == 1u64 << 0u64,
        ConflictMask::SameParentDifferentTarget.bit_set() == (1u64 << 1u64) | (1u64 << 2u64),
        ConflictMask::LhsTargetIsRhsParent.bit_set() == 1u64 << 3u64,
        ConflictMask::AncestorDescendant.bit_set() == 1u64 << 4u64,
        ConflictMask::RootInvolved.bit_set() == 1u64 << 5u64,
        ConflictMask::IndependentSubtree.bit_set() == 1u64 << 6u64,
        ConflictMask::RenameInvolved.bit_set() == 1u64 << 7u64,
{
    assert(1u64 << 0u64 == 1) by (bit_vector);
    assert((1u64 << 1u64) | (1u64 << 2u64) == 6) by (bit_vector);
    assert(1u64 << 3u64 == 8) by (bit_vector);
    assert(1u64 << 4u64 == 16) by (bit_vector);
    assert(1u64 << 5u64 == 32) by (bit_vector);
    assert(1u64 << 6u64 == 64) by (bit_vector);
    assert(1u64 << 7u64 == 128) by (bit_vector);
}

/// Every operation has a path of success of its own.
pub proof fn lemma_success_paths(op: FsOpView)
    ensures
        op is Create <==> tables::success_path(op) == PathId::CreateSuccess,
        op is Mkdir <==> tables::success_path(op) == PathId::MkdirSuccess,
        op is Unlink <==> tables::success_path(op) == PathId::UnlinkSuccess,
        op is Rmdir <==> tables::success_path(op) == PathId::RmdirSuccess,
        op is Rename <==> tables::success_path(op) == PathId::RenameSuccess,
        op is Stat <==> tables::success_path(op) == PathId::StatSuccess,
{
}

/// Moving a path below itself never meets its condition.
pub proof fn lemma_condition_refuses_inside(src: Path, dst: Path, reads: Reads)
    requires
        path::valid_path(src),
        path::valid_path(dst),
        path::strict_ancestor(src, dst),
    ensures
        !condition::success_condition(FsOpView::Rename { src, dst }, reads),
{
}

/// A read that is not known counts as one that found nothing, but for making the root,
/// which must be known to be missing.
pub proof fn lemma_condition_of_unknown(op: FsOpView, reads: Reads, key: Path)
    requires
        op.valid(),
        !reads.contains_key(key),
    ensures
        op != (FsOpView::Mkdir { path: seq!['/'] }) ==> condition::success_condition(op, reads)
            == condition::success_condition(op, reads.insert(key, ReadValue::Missing)),
        op == (FsOpView::Mkdir { path: seq!['/'] }) && key == seq!['/']
            ==> !condition::success_condition(op, reads),
{
    assert(path::root_path() =~= seq!['/']);
    assert(forall|k: Path|
        condition::seen(reads, k) == #[trigger] condition::seen(
            reads.insert(key, ReadValue::Missing),
            k,
        ));
}

/// The condition depends on nothing but the keys that the operation reads, and is that of
/// its success, but for moving a path below itself.
pub proof fn lemma_condition_from_state(s: State, op: FsOpView, reads: Reads)
    requires
        op.valid(),
        !(op matches FsOpView::Rename { src, dst } && path::strict_ancestor(src, dst)),
        crate::laws::operations::reads_from(reads, s, op),
    ensures
        condition::success_condition(op, reads) <==> outcomes::answer(s, op) == TxResult::Success,
{
    let own = crate::state::reads_of(s, executor::read_keys(op));
    crate::laws::planning::lemma_condition_is_success(op, s);
    assert(forall|k: Path| #[trigger]
        executor::read_keys(op).contains(k) ==> condition::seen(reads, k) == condition::seen(
            own,
            k,
        ));
    match op {
        FsOpView::Rename { src, dst } => {
            assert(executor::read_keys(op).contains(src));
            assert(executor::read_keys(op).contains(dst));
            if src != path::root_path() && dst != path::root_path() {
                assert(executor::read_keys(op).contains(path::parent_of(src)));
                assert(executor::read_keys(op).contains(path::parent_of(dst)));
            }
        },
        FsOpView::Create { path } | FsOpView::Mkdir { path } | FsOpView::Unlink {
            path,
        } | FsOpView::Rmdir { path } | FsOpView::Stat { path } => {
            assert(executor::read_keys(op).contains(path));
            if path != path::root_path() && !(op is Stat) {
                assert(executor::read_keys(op).contains(path::parent_of(path)));
            }
        },
    }
}

} // verus!
