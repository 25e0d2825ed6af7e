//! How two operations relate, and which relations are conflicts.

use crate::collections::{OrdMap, SortKey};
use crate::error::Result;
use crate::model::{chars_of, FsOp, FsOpView, Key, OrderedTx, TxExecutionOutput, TxResult};
use crate::path;
use crate::path::Path;
use vstd::prelude::*;

verus! {

/// The way a transaction goes when it succeeds.
#[derive(Clone, Copy, Debug, PartialEq, Eq, PartialOrd, Ord, Structural)]
pub enum PathId {
    CreateSuccess,
    MkdirSuccess,
    UnlinkSuccess,
    RmdirSuccess,
    RenameSuccess,
    StatSuccess,
}

/// How the paths of two operations relate. Each relation stands for one bit set.
#[derive(Clone, Copy, Debug, PartialEq, Eq, PartialOrd, Ord, Structural)]
pub enum ConflictMask {
    SameTarget,
    SameParentDifferentTarget,
    LhsTargetIsRhsParent,
    AncestorDescendant,
    RootInvolved,
    IndependentSubtree,
    RenameInvolved,
}

impl ConflictMask {
    pub const SAME_TARGET: ConflictMask = ConflictMask::SameTarget;

    pub const SAME_PARENT_DIFFERENT_TARGET: ConflictMask = ConflictMask::SameParentDifferentTarget;

    pub const LHS_TARGET_IS_RHS_PARENT: ConflictMask = ConflictMask::LhsTargetIsRhsParent;

    pub const ANCESTOR_DESCENDANT: ConflictMask = ConflictMask::AncestorDescendant;

    pub const ROOT_INVOLVED: ConflictMask = ConflictMask::RootInvolved;

    pub const INDEPENDENT_SUBTREE: ConflictMask = ConflictMask::IndependentSubtree;

    pub const RENAME_INVOLVED: ConflictMask = ConflictMask::RenameInvolved;

    /// The bit set of a relation; the relation between two entries of one
    /// directory holds the bits for "same parent" and "different target".
    pub open spec fn bit_set(self) -> u64 {
        match self {
            ConflictMask::SameTarget => 1,
            ConflictMask::SameParentDifferentTarget => 6,
            ConflictMask::LhsTargetIsRhsParent => 8,
            ConflictMask::AncestorDescendant => 16,
            ConflictMask::RootInvolved => 32,
            ConflictMask::IndependentSubtree => 64,
            ConflictMask::RenameInvolved => 128,
        }
    }

    pub fn bits(self) -> (r: u64)
        ensures
            r == self.bit_set(),
    {
        match self {
            ConflictMask::SameTarget => 1,
            ConflictMask::SameParentDifferentTarget => 6,
            ConflictMask::LhsTargetIsRhsParent => 8,
            ConflictMask::AncestorDescendant => 16,
            ConflictMask::RootInvolved => 32,
            ConflictMask::IndependentSubtree => 64,
            ConflictMask::RenameInvolved => 128,
        }
    }
}

/// The success path of an operation.
pub open spec fn success_path(op: FsOpView) -> PathId {
    match op {
        FsOpView::Create { .. } => PathId::CreateSuccess,
        FsOpView::Mkdir { .. } => PathId::MkdirSuccess,
        FsOpView::Unlink { .. } => PathId::UnlinkSuccess,
        FsOpView::Rmdir { .. } => PathId::RmdirSuccess,
        FsOpView::Rename { .. } => PathId::RenameSuccess,
        FsOpView::Stat { .. } => PathId::StatSuccess,
    }
}

/// The path that every transaction is predicted to take: that of success.
pub fn predicted_path(op: &FsOp) -> (r: PathId)
    ensures
        r == success_path(op@),
{
    match op {
        FsOp::Create { .. } => PathId::CreateSuccess,
        FsOp::Mkdir { .. } => PathId::MkdirSuccess,
        FsOp::Unlink { .. } => PathId::UnlinkSuccess,
        FsOp::Rmdir { .. } => PathId::RmdirSuccess,
        FsOp::Rename { .. } => PathId::RenameSuccess,
        FsOp::Stat { .. } => PathId::StatSuccess,
    }
}

/// The path that `tx` took, where it succeeded.
pub fn classify_actual_path(tx: &OrderedTx, output: &TxExecutionOutput) -> (r: Option<PathId>)
    ensures
        r == (if output@.result == TxResult::Success {
            Some(success_path(tx@.op))
        } else {
            None
        }),
{
    if output.result != TxResult::Success {
        return None;
    }
    Some(predicted_path(&tx.op))
}

/// The path an operation is about; of a rename, the source.
pub open spec fn target_of(op: FsOpView) -> Path {
    match op {
        FsOpView::Create { path } => path,
        FsOpView::Mkdir { path } => path,
        FsOpView::Unlink { path } => path,
        FsOpView::Rmdir { path } => path,
        FsOpView::Rename { src, .. } => src,
        FsOpView::Stat { path } => path,
    }
}

/// The operation names the root.
pub open spec fn names_root(op: FsOpView) -> bool {
    target_of(op) == path::root_path() || (op matches FsOpView::Rename { dst, .. } && dst
        == path::root_path())
}

/// How `lhs` and `rhs` relate: the first relation of this list that holds.
pub open spec fn relation(lhs: FsOpView, rhs: FsOpView) -> ConflictMask {
    let l = target_of(lhs);
    let r = target_of(rhs);
    if names_root(lhs) || names_root(rhs) {
        ConflictMask::RootInvolved
    } else if lhs is Rename || rhs is Rename {
        ConflictMask::RenameInvolved
    } else if l == r {
        ConflictMask::SameTarget
    } else if l == path::parent_of(r) {
        ConflictMask::LhsTargetIsRhsParent
    } else if path::strict_ancestor(l, r) || path::strict_ancestor(r, l) {
        ConflictMask::AncestorDescendant
    } else if path::parent_of(l) == path::parent_of(r) {
        ConflictMask::SameParentDifferentTarget
    } else {
        ConflictMask::IndependentSubtree
    }
}

fn primary_target(op: &FsOp) -> (r: &Key)
    ensures
        r@ == target_of(op@),
{
    match op {
        FsOp::Create { path } => path,
        FsOp::Mkdir { path } => path,
        FsOp::Unlink { path } => path,
        FsOp::Rmdir { path } => path,
        FsOp::Stat { path } => path,
        FsOp::Rename { src, .. } => src,
    }
}

fn mentions_root(op: &FsOp) -> (r: bool)
    ensures
        r == names_root(op@),
{
    if primary_target(op).is_root() {
        return true;
    }
    match op {
        FsOp::Rename { dst, .. } => dst.is_root(),
        _ => false,
    }
}

/// Whether `ancestor` is a directory somewhere above `descendant`.
pub(crate) fn is_strict_ancestor(ancestor: &Key, descendant: &Key) -> (r: bool)
    ensures
        r == path::strict_ancestor(ancestor@, descendant@),
{
    if ancestor.is_root() {
        return !descendant.is_root();
    }
    let a = chars_of(ancestor.as_str());
    let d = chars_of(descendant.as_str());
    if a.len() >= d.len() {
        return false;
    }
    let mut i: usize = 0;
    while i < a.len()
        invariant
            i <= a.len() < d.len(),
            a@ == ancestor@,
            d@ == descendant@,
            a@ != path::root_path(),
            forall|j: int| 0 <= j < i ==> a@[j] == d@[j],
        decreases a.len() - i,
    {
        if a[i] != d[i] {
            assert(d@.subrange(0, a@.len() as int)[i as int] == d@[i as int]);
            return false;
        }
        i += 1;
    }
    assert(d@.subrange(0, a@.len() as int) =~= a@);
    d[a.len()] == '/'
}

/// How `lhs` and `rhs` relate.
pub fn conflict_mask(lhs: &FsOp, rhs: &FsOp) -> (r: Result<ConflictMask>)
    ensures
        match r {
            Ok(mask) => mask == relation(lhs@, rhs@),
            Err(_) => false,
        },
{
    if mentions_root(lhs) || mentions_root(rhs) {
        return Ok(ConflictMask::ROOT_INVOLVED);
    }
    if matches!(lhs, FsOp::Rename { .. }) || matches!(rhs, FsOp::Rename { .. }) {
        return Ok(ConflictMask::RENAME_INVOLVED);
    }
    let lhs_target = primary_target(lhs);
    let rhs_target = primary_target(rhs);
    if lhs_target.equals(rhs_target) {
        return Ok(ConflictMask::SAME_TARGET);
    }
    let lhs_parent = lhs_target.parent()?;
    let rhs_parent = rhs_target.parent()?;
    if lhs_target.equals(&rhs_parent) {
        return Ok(ConflictMask::LHS_TARGET_IS_RHS_PARENT);
    }
    if is_strict_ancestor(lhs_target, rhs_target) || is_strict_ancestor(rhs_target, lhs_target) {
        return Ok(ConflictMask::ANCESTOR_DESCENDANT);
    }
    if lhs_parent.equals(&rhs_parent) {
        return Ok(ConflictMask::SAME_PARENT_DIFFERENT_TARGET);
    }
    Ok(ConflictMask::INDEPENDENT_SUBTREE)
}

/// What a semantic table is asked: two paths, in order, and how they relate.
#[derive(Clone, Copy, Debug, PartialEq, Eq, PartialOrd, Ord, Structural)]
pub struct SemanticKey {
    pub path1: PathId,
    pub path2: PathId,
    pub conflict_mask: ConflictMask,
}

impl View for SemanticKey {
    type V = SemanticKey;

    open spec fn view(&self) -> SemanticKey {
        *self
    }
}

/// The place of a path in the declared order.
pub open spec fn path_rank(p: PathId) -> int {
    match p {
        PathId::CreateSuccess => 0,
        PathId::MkdirSuccess => 1,
        PathId::UnlinkSuccess => 2,
        PathId::RmdirSuccess => 3,
        PathId::RenameSuccess => 4,
        PathId::StatSuccess => 5,
    }
}

fn rank_of(p: PathId) -> (r: u64)
    ensures
        r == path_rank(p),
{
    match p {
        PathId::CreateSuccess => 0,
        PathId::MkdirSuccess => 1,
        PathId::UnlinkSuccess => 2,
        PathId::RmdirSuccess => 3,
        PathId::RenameSuccess => 4,
        PathId::StatSuccess => 5,
    }
}

impl SortKey for SemanticKey {
    open spec fn before(a: SemanticKey, b: SemanticKey) -> bool {
        if a.path1 != b.path1 {
            path_rank(a.path1) < path_rank(b.path1)
        } else if a.path2 != b.path2 {
            path_rank(a.path2) < path_rank(b.path2)
        } else {
            a.conflict_mask.bit_set() < b.conflict_mask.bit_set()
        }
    }

    proof fn before_irreflexive(a: SemanticKey) {
    }

    proof fn before_transitive(a: SemanticKey, b: SemanticKey, c: SemanticKey) {
    }

    proof fn before_total(a: SemanticKey, b: SemanticKey) {
    }

    fn is_before(&self, other: &SemanticKey) -> (r: bool) {
        if self.path1 != other.path1 {
            rank_of(self.path1) < rank_of(other.path1)
        } else if self.path2 != other.path2 {
            rank_of(self.path2) < rank_of(other.path2)
        } else {
            self.conflict_mask.bits() < other.conflict_mask.bits()
        }
    }

    fn same_key(&self, other: &SemanticKey) -> (r: bool) {
        self.path1 == other.path1 && self.path2 == other.path2 && self.conflict_mask
            == other.conflict_mask
    }

    fn duplicate(&self) -> (r: SemanticKey) {
        *self
    }
}

/// Which pairs of paths conflict; what is not listed has the default.
#[derive(Clone, Debug)]
pub struct SemanticTable {
    entries: OrdMap<SemanticKey, bool>,
    default_conflict: bool,
}

impl SemanticTable {
    pub closed spec fn conflicts(&self, key: SemanticKey) -> bool {
        if self.entries@.contains_key(key) {
            self.entries@[key]
        } else {
            self.default_conflict
        }
    }

    pub fn has_conflict(&self, key: &SemanticKey) -> (r: bool)
        ensures
            r == self.conflicts(*key),
    {
        match self.entries.get(key) {
            Some(conflict) => *conflict,
            None => self.default_conflict,
        }
    }

    /// The table in which everything conflicts.
    fn all_conflicts() -> (r: Self)
        ensures
            forall|key: SemanticKey| #[trigger] r.conflicts(key),
    {
        SemanticTable { entries: OrdMap::new(), default_conflict: true }
    }

    /// Lists every pair of a path of `lhs` and one of `rhs` under `mask` as no
    /// conflict.
    fn insert_no_conflicts(&mut self, lhs: &Vec<PathId>, rhs: &Vec<PathId>, mask: ConflictMask)
        ensures
            forall|key: SemanticKey| #[trigger]
                final(self).conflicts(key) == (old(self).conflicts(key) && !(lhs@.contains(key.path1)
                    && rhs@.contains(key.path2) && key.conflict_mask == mask)),
    {
        let mut i: usize = 0;
        while i < lhs.len()
            invariant
                i <= lhs.len(),
                forall|key: SemanticKey| #[trigger]
                    self.conflicts(key) == (old(self).conflicts(key) && !(lhs@.take(
                        i as int,
                    ).contains(key.path1) && rhs@.contains(key.path2) && key.conflict_mask == mask)),
            decreases lhs.len() - i,
        {
            let ghost before_row = *self;
            let mut j: usize = 0;
            while j < rhs.len()
                invariant
                    i < lhs.len(),
                    j <= rhs.len(),
                    forall|key: SemanticKey| #[trigger]
                        self.conflicts(key) == (before_row.conflicts(key) && !(key.path1
                            == lhs@[i as int] && rhs@.take(j as int).contains(key.path2)
                            && key.conflict_mask == mask)),
                decreases rhs.len() - j,
            {
                let ghost before_cell = *self;
                let key = SemanticKey { path1: lhs[i], path2: rhs[j], conflict_mask: mask };
                let _ = self.entries.insert(key, false);
                proof {
                    lemma_take_contains(rhs@, j as int);
                    assert forall|k: SemanticKey| #[trigger]
                        self.conflicts(k) == (before_cell.conflicts(k) && k != key) by {}
                }
                j += 1;
            }
            proof {
                assert(rhs@.take(rhs@.len() as int) =~= rhs@);
                lemma_take_contains(lhs@, i as int);
            }
            i += 1;
        }
        assert(lhs@.take(lhs@.len() as int) =~= lhs@);
    }
}

proof fn lemma_take_contains(s: Seq<PathId>, i: int)
    requires
        0 <= i < s.len(),
    ensures
        forall|p: PathId| #[trigger]
            s.take(i + 1).contains(p) <==> (s.take(i).contains(p) || p == s[i]),
{
    assert forall|p: PathId| #[trigger] s.take(i + 1).contains(p) <==> (s.take(i).contains(p) || p
        == s[i]) by {
        if s.take(i).contains(p) {
            let j = choose|j: int| 0 <= j < i && s.take(i)[j] == p;
            assert(s.take(i + 1)[j] == p);
        }
        if s.take(i + 1).contains(p) && p != s[i] {
            let t = s.take(i + 1);
            let j = choose|j: int| 0 <= j < t.len() && t[j] == p;
            assert(s.take(i)[j] == p);
        }
        assert(s.take(i + 1)[i] == s[i]);
    }
}

/// The two tables that guide the scheduler: what a transaction must see before
/// it computes its effect, and before its success is confirmed.
#[derive(Clone, Debug)]
pub struct SemanticTables {
    pub effect: SemanticTable,
    pub condition: SemanticTable,
}

/// The path adds or removes one entry of a directory.
pub open spec fn is_mutation(p: PathId) -> bool {
    p == PathId::CreateSuccess || p == PathId::MkdirSuccess || p == PathId::UnlinkSuccess || p
        == PathId::RmdirSuccess
}

/// The pairs that do not conflict: changes of two different entries of one
/// directory, two looks wherever they go, a look and a change of different
/// entries of one directory, and anything but a rename in independent subtrees.
pub open spec fn compatible(key: SemanticKey) -> bool {
    let looks_1 = key.path1 == PathId::StatSuccess;
    let looks_2 = key.path2 == PathId::StatSuccess;
    match key.conflict_mask {
        ConflictMask::SameParentDifferentTarget => (is_mutation(key.path1) || looks_1) && (
        is_mutation(key.path2) || looks_2),
        ConflictMask::IndependentSubtree => (is_mutation(key.path1) || looks_1) && (is_mutation(
            key.path2,
        ) || looks_2),
        ConflictMask::SameTarget => looks_1 && looks_2,
        ConflictMask::LhsTargetIsRhsParent => looks_1 && looks_2,
        ConflictMask::AncestorDescendant => looks_1 && looks_2,
        ConflictMask::RootInvolved => false,
        ConflictMask::RenameInvolved => false,
    }
}

/// One table with the pairs of [`compatible`] listed.
fn compatible_table() -> (r: SemanticTable)
    ensures
        forall|key: SemanticKey| #[trigger] r.conflicts(key) == !compatible(key),
{
    let mutations = vec![
        PathId::CreateSuccess,
        PathId::MkdirSuccess,
        PathId::UnlinkSuccess,
        PathId::RmdirSuccess,
    ];
    let looks = vec![PathId::StatSuccess];
    let without_rename = vec![
        PathId::CreateSuccess,
        PathId::MkdirSuccess,
        PathId::UnlinkSuccess,
        PathId::RmdirSuccess,
        PathId::StatSuccess,
    ];
    proof {
        assert forall|p: PathId| #[trigger] mutations@.contains(p) <==> is_mutation(p) by {
            assert(mutations@[0] == PathId::CreateSuccess && mutations@[1] == PathId::MkdirSuccess
                && mutations@[2] == PathId::UnlinkSuccess && mutations@[3] == PathId::RmdirSuccess);
        }
        assert forall|p: PathId| #[trigger] looks@.contains(p) <==> p == PathId::StatSuccess by {
            assert(looks@[0] == PathId::StatSuccess);
        }
        assert forall|p: PathId| #[trigger]
            without_rename@.contains(p) <==> p != PathId::RenameSuccess by {
            assert(without_rename@[0] == PathId::CreateSuccess && without_rename@[1]
                == PathId::MkdirSuccess && without_rename@[2] == PathId::UnlinkSuccess
                && without_rename@[3] == PathId::RmdirSuccess && without_rename@[4]
                == PathId::StatSuccess);
        }
    }
    let mut table = SemanticTable::all_conflicts();
    let siblings = ConflictMask::SAME_PARENT_DIFFERENT_TARGET;
    table.insert_no_conflicts(&mutations, &mutations, siblings);
    table.insert_no_conflicts(&looks, &looks, ConflictMask::SAME_TARGET);
    table.insert_no_conflicts(&looks, &looks, siblings);
    table.insert_no_conflicts(&looks, &looks, ConflictMask::LHS_TARGET_IS_RHS_PARENT);
    table.insert_no_conflicts(&looks, &looks, ConflictMask::ANCESTOR_DESCENDANT);
    table.insert_no_conflicts(&mutations, &looks, siblings);
    table.insert_no_conflicts(&looks, &mutations, siblings);
    table.insert_no_conflicts(
        &without_rename,
        &without_rename,
        ConflictMask::INDEPENDENT_SUBTREE,
    );
    table
}

/// The tables of the scheduler.
pub fn semantic_tables() -> (r: SemanticTables)
    ensures
        forall|key: SemanticKey| #[trigger] r.effect.conflicts(key) == !compatible(key),
        forall|key: SemanticKey| #[trigger] r.condition.conflicts(key) == !compatible(key),
{
    SemanticTables { effect: compatible_table(), condition: compatible_table() }
}

/// `lhs`, earlier in a batch, must be seen by `rhs`.
pub open spec fn conflicting(lhs: FsOpView, rhs: FsOpView) -> bool {
    !compatible(
        SemanticKey {
            path1: success_path(lhs),
            path2: success_path(rhs),
            conflict_mask: relation(lhs, rhs),
        },
    )
}

} // verus!
