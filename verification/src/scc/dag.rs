//! Running a dependency graph: which transactions may go on, as others finish.

use crate::collections;
use crate::collections::OrdSet;
use crate::error::{BatchFault, Error, Result};
use crate::scc::plan::{SccBatchPlan, SemanticDag};
use vstd::prelude::*;
use vstd::set_lib::set_int_range;

verus! {

struct DagRuntimeNode {
    indegree: usize,
    successors: OrdSet<usize>,
    notified: bool,
    finished: bool,
}

/// How far a graph has run: its edges, which vertices were told to go on, and
/// which are done.
#[verifier::ext_equal]
pub struct DagView {
    pub successors: Seq<Set<usize>>,
    pub notified: Seq<bool>,
    pub finished: Seq<bool>,
}

impl DagView {
    /// Every vertex that `j` waits for is done.
    pub open spec fn ready(self, j: int) -> bool {
        forall|i: int|
            0 <= i < self.successors.len() && #[trigger] self.successors[i].contains(j as usize)
                ==> self.finished[i]
    }

    /// The vertices that `j` still waits for.
    pub open spec fn open_preds(self, j: usize) -> Set<int> {
        set_int_range(0, self.successors.len() as int).filter(
            |i: int| !self.finished[i] && self.successors[i].contains(j),
        )
    }

    /// The same with `index` done.
    pub open spec fn finish(self, index: int) -> DagView {
        DagView { finished: self.finished.update(index, true), ..self }
    }

    /// The same after every vertex that is ready and among `asked` was told.
    pub open spec fn notify(self, asked: Set<usize>) -> DagView {
        DagView {
            notified: Seq::new(
                self.notified.len(),
                |j: int| self.notified[j] || (asked.contains(j as usize) && self.ready(j)),
            ),
            ..self
        }
    }

    /// The vertices among `asked` that are ready and were not told yet.
    pub open spec fn fresh(self, asked: Set<usize>) -> Set<usize> {
        Set::new(
            |j: usize|
                j < self.notified.len() && asked.contains(j) && self.ready(j as int)
                    && !self.notified[j as int],
        )
    }

    /// All vertices.
    pub open spec fn vertices(self) -> Set<usize> {
        Set::new(|j: usize| j < self.notified.len())
    }
}

/// A graph while it runs. A vertex counts the vertices it still waits for.
pub struct DagRuntime {
    nodes: Vec<DagRuntimeNode>,
}

spec fn view_of(nodes: Seq<DagRuntimeNode>) -> DagView {
    DagView {
        successors: nodes.map_values(|n: DagRuntimeNode| n.successors@),
        notified: nodes.map_values(|n: DagRuntimeNode| n.notified),
        finished: nodes.map_values(|n: DagRuntimeNode| n.finished),
    }
}

spec fn counts(nodes: Seq<DagRuntimeNode>) -> bool {
    &&& forall|i: int, j: usize|
        0 <= i < nodes.len() && #[trigger] nodes[i].successors@.contains(j) ==> j < nodes.len()
    &&& forall|j: int|
        0 <= j < nodes.len() ==> (#[trigger] nodes[j]).indegree == view_of(nodes).open_preds(
            j as usize,
        ).len()
}

impl View for DagRuntime {
    type V = DagView;

    closed spec fn view(&self) -> DagView {
        view_of(self.nodes@)
    }
}

proof fn lemma_open_preds(v: DagView, j: usize)
    requires
        v.finished.len() == v.successors.len(),
    ensures
        v.open_preds(j).finite(),
        v.open_preds(j).len() <= v.successors.len(),
        v.open_preds(j).len() == 0 <==> v.ready(j as int),
{
    let all = set_int_range(0, v.successors.len() as int);
    vstd::set_lib::lemma_int_range(0, v.successors.len() as int);
    let s = v.open_preds(j);
    all.lemma_len_filter(|i: int| !v.finished[i] && v.successors[i].contains(j));
    if s.len() == 0 {
        assert forall|i: int|
            0 <= i < v.successors.len() && #[trigger] v.successors[i].contains(
                j as usize,
            ) implies v.finished[i] by {
            if !v.finished[i] {
                assert(s.contains(i));
            }
        }
    }
    if v.ready(j as int) {
        assert forall|i: int| !s.contains(i) by {
            if s.contains(i) {
                assert(v.successors[i].contains((j as int) as usize));
            }
        }
        assert(s =~= Set::<int>::empty());
    }
}

/// Finishing a vertex takes it off what its successors wait for.
proof fn lemma_finish_preds(v: DagView, index: int, j: usize)
    requires
        v.finished.len() == v.successors.len(),
        0 <= index < v.successors.len(),
        !v.finished[index],
    ensures
        v.finish(index).open_preds(j).len() == v.open_preds(j).len() - (if v.successors[index].contains(
            j,
        ) {
            1int
        } else {
            0
        }),
{
    lemma_open_preds(v, j);
    if v.successors[index].contains(j) {
        assert(v.open_preds(j).contains(index));
        assert(v.finish(index).open_preds(j) =~= v.open_preds(j).remove(index));
    } else {
        assert(v.finish(index).open_preds(j) =~= v.open_preds(j));
    }
}

/// The vertices before `k` that have an edge to `j`.
spec fn preds_below(succ: Seq<Set<usize>>, j: usize, k: int) -> Set<int> {
    set_int_range(0, k).filter(|i: int| succ[i].contains(j))
}

proof fn lemma_preds_below(succ: Seq<Set<usize>>, j: usize, k: int)
    requires
        0 <= k < succ.len(),
    ensures
        preds_below(succ, j, k).finite(),
        preds_below(succ, j, k).len() <= k,
        preds_below(succ, j, k + 1).len() == preds_below(succ, j, k).len() + (if succ[k].contains(j) {
            1int
        } else {
            0
        }),
{
    vstd::set_lib::lemma_int_range(0, k);
    set_int_range(0, k).lemma_len_filter(|i: int| succ[i].contains(j));
    if succ[k].contains(j) {
        assert(preds_below(succ, j, k + 1) =~= preds_below(succ, j, k).insert(k));
    } else {
        assert(preds_below(succ, j, k + 1) =~= preds_below(succ, j, k));
    }
}

impl DagRuntime {
    #[verifier::type_invariant]
    closed spec fn inv(self) -> bool {
        counts(self.nodes@)
    }

    /// Counts, for each vertex, the edges that end there.
    fn indegrees(dag: &SemanticDag) -> (r: Vec<usize>)
        requires
            dag.wf(),
        ensures
            r.len() == dag.nodes.len(),
            forall|j: int|
                0 <= j < r.len() ==> #[trigger] r[j] == preds_below(
                    dag.nodes@.map_values(|n: crate::scc::plan::DagNode| n.successors@),
                    j as usize,
                    dag.nodes.len() as int,
                ).len(),
    {
        let len = dag.nodes.len();
        let ghost succ = dag.nodes@.map_values(|n: crate::scc::plan::DagNode| n.successors@);
        let mut indegrees: Vec<usize> = Vec::new();
        let mut k: usize = 0;
        while k < len
            invariant
                k <= len,
                indegrees.len() == k,
                forall|j: int| 0 <= j < k ==> #[trigger] indegrees[j] == 0,
            decreases len - k,
        {
            indegrees.push(0);
            k += 1;
        }
        let mut i: usize = 0;
        proof {
            assert forall|j: int| 0 <= j < len implies #[trigger] indegrees[j] == preds_below(
                succ,
                j as usize,
                0,
            ).len() by {
                assert(preds_below(succ, j as usize, 0) =~= Set::<int>::empty());
            }
        }
        while i < len
            invariant
                i <= len,
                len == dag.nodes.len(),
                dag.wf(),
                succ == dag.nodes@.map_values(|n: crate::scc::plan::DagNode| n.successors@),
                indegrees.len() == len,
                forall|j: int|
                    0 <= j < len ==> #[trigger] indegrees[j] == preds_below(
                        succ,
                        j as usize,
                        i as int,
                    ).len(),
            decreases len - i,
        {
            let successors = &dag.nodes[i].successors;
            let m = successors.len();
            let ghost items = successors.ordered();
            let mut s: usize = 0;
            proof {
                assert(succ[i as int] == successors@);
                assert forall|j: int| 0 <= j < len implies #[trigger] indegrees[j] == preds_below(
                    succ,
                    j as usize,
                    i as int,
                ).len() + (if items.take(0).contains(j as usize) {
                    1int
                } else {
                    0
                }) by {
                    assert(!items.take(0).contains(j as usize));
                }
            }
            while s < m
                invariant
                    i < len,
                    s <= m,
                    len == dag.nodes.len(),
                    dag.wf(),
                    m == successors.ordered().len(),
                    items == successors.ordered(),
                    *successors == dag.nodes[i as int].successors,
                    collections::ascending::<usize>(items),
                    succ == dag.nodes@.map_values(|n: crate::scc::plan::DagNode| n.successors@),
                    indegrees.len() == len,
                    forall|j: int|
                        0 <= j < len ==> #[trigger] indegrees[j] == preds_below(
                            succ,
                            j as usize,
                            i as int,
                        ).len() + (if items.take(s as int).contains(j as usize) {
                            1int
                        } else {
                            0
                        }),
                decreases m - s,
            {
                let successor = *successors.at(s);
                proof {
                    assert(dag.nodes[i as int].successors@.contains(successor));
                    lemma_preds_below(succ, successor, i as int);
                    lemma_take_members(items, s as int);
                    assert(indegrees[successor as int] <= i);
                }
                let before_count: usize = indegrees[successor];
                indegrees.set(successor, before_count + 1);
                s += 1;
            }
            proof {
                assert(items.take(m as int) =~= items);
                assert forall|j: int| 0 <= j < len implies #[trigger] indegrees[j] == preds_below(
                    succ,
                    j as usize,
                    i + 1,
                ).len() by {
                    lemma_preds_below(succ, j as usize, i as int);
                    assert(items.contains(j as usize) <==> successors@.contains(j as usize));
                }
            }
            i += 1;
        }
        indegrees
    }

    pub fn new(dag: &SemanticDag) -> (r: Self)
        requires
            dag.wf(),
        ensures
            r@.successors == dag.nodes@.map_values(|n: crate::scc::plan::DagNode| n.successors@),
            r@.notified == Seq::new(dag.nodes@.len(), |j: int| false),
            r@.finished == Seq::new(dag.nodes@.len(), |j: int| false),
    {
        let indegrees = DagRuntime::indegrees(dag);
        let len = dag.nodes.len();
        let ghost succ = dag.nodes@.map_values(|n: crate::scc::plan::DagNode| n.successors@);
        let mut nodes: Vec<DagRuntimeNode> = Vec::new();
        let mut i: usize = 0;
        while i < len
            invariant
                i <= len,
                len == dag.nodes.len(),
                indegrees.len() == len,
                nodes.len() == i,
                forall|k: int|
                    0 <= k < i ==> (#[trigger] nodes[k]).successors@ == dag.nodes[k].successors@
                        && !nodes[k].notified && !nodes[k].finished && nodes[k].indegree
                        == indegrees[k],
            decreases len - i,
        {
            nodes.push(
                DagRuntimeNode {
                    indegree: indegrees[i],
                    successors: dag.nodes[i].successors.clone(),
                    notified: false,
                    finished: false,
                },
            );
            i += 1;
        }
        proof {
            let v = view_of(nodes@);
            assert(v.successors =~= succ);
            assert(v.notified =~= Seq::new(dag.nodes@.len(), |j: int| false));
            assert(v.finished =~= Seq::new(dag.nodes@.len(), |j: int| false));
            assert forall|j: int| 0 <= j < nodes@.len() implies (#[trigger] nodes@[j]).indegree
                == v.open_preds(j as usize).len() by {
                assert(v.open_preds(j as usize) =~= preds_below(succ, j as usize, len as int));
            }
            assert forall|i: int, j: usize|
                0 <= i < nodes@.len() && #[trigger] nodes@[i].successors@.contains(j) implies j
                < nodes@.len() by {
                assert(dag.nodes[i].successors@.contains(j));
            }
        }
        DagRuntime { nodes }
    }

    /// Tells every vertex that waits for nothing to go on; gives those that were
    /// not told before, in order.
    pub fn start(&mut self) -> (r: Result<Vec<usize>>)
        ensures
            match r {
                Ok(told) => {
                    &&& collections::ascending::<usize>(told@)
                    &&& told@.to_set() == old(self)@.fresh(old(self)@.vertices())
                    &&& final(self)@ == old(self)@.notify(old(self)@.vertices())
                },
                Err(_) => false,
            },
    {
        proof {
            use_type_invariant(&*self);
        }
        let ghost v = self@;
        let mut nodes: Vec<DagRuntimeNode> = Vec::new();
        std::mem::swap(&mut nodes, &mut self.nodes);
        let len = nodes.len();
        let ghost all = v.vertices();
        let mut told: Vec<usize> = Vec::new();
        let mut i: usize = 0;
        while i < len
            invariant
                i <= len,
                len == nodes.len(),
                counts(nodes@),
                v.successors == view_of(nodes@).successors,
                v.finished == view_of(nodes@).finished,
                v.notified.len() == len,
                forall|j: int|
                    0 <= j < len ==> (#[trigger] nodes[j]).notified == (v.notified[j] || (j < i
                        && v.ready(j))),
                collections::ascending::<usize>(told@),
                forall|j: usize| #[trigger] told@.contains(j) <==> j < i && v.ready(j as int)
                    && !v.notified[j as int],
            decreases len - i,
        {
            let ghost before_nodes = nodes@;
            let ghost before_told = told@;
            proof {
                lemma_open_preds(v, i as usize);
                assert(view_of(nodes@).open_preds(i) =~= v.open_preds(i));
                assert(nodes@[i as int].notified == v.notified[i as int]);
            }
            if nodes[i].indegree == 0 && !nodes[i].notified {
                nodes[i].notified = true;
                told.push(i);
                proof {
                    assert forall|j: usize| #[trigger] told@.contains(j) <==> before_told.contains(j)
                        || j == i by {
                        if before_told.contains(j) {
                            let k = choose|k: int| 0 <= k < before_told.len() && before_told[k] == j;
                            assert(told@[k] == j);
                        }
                        if told@.contains(j) && j != i {
                            let k = choose|k: int| 0 <= k < told@.len() && told@[k] == j;
                            assert(before_told[k] == j);
                        }
                        assert(told@[told@.len() - 1] == i);
                    }
                    assert forall|a: int, b: int| 0 <= a < b < told@.len() implies #[trigger]
                    <usize as collections::SortKey>::before(
                        #[trigger] told@[a],
                        #[trigger] told@[b],
                    ) by {
                        if b == told@.len() - 1 {
                            assert(before_told.contains(told@[a]));
                        } else {
                            assert(<usize as collections::SortKey>::before(
                                before_told[a],
                                before_told[b],
                            ));
                        }
                    }
                    lemma_same_edges(before_nodes, nodes@);
                }
            }
            i += 1;
        }
        self.nodes = nodes;
        proof {
            assert(self@.notified =~= v.notify(all).notified);
            assert(self@ =~= v.notify(all));
            assert(told@.to_set() =~= v.fresh(all));
        }
        Ok(told)
    }

    /// Marks a vertex as done; gives the successors that thereby wait for
    /// nothing any more and were not told before, in order.
    pub fn finish_vertex(&mut self, tx_index: usize) -> (r: Result<Vec<usize>>)
        ensures
            match r {
                Ok(told) => {
                    let done = old(self)@.finish(tx_index as int);
                    &&& tx_index < old(self)@.finished.len()
                    &&& !old(self)@.finished[tx_index as int]
                    &&& collections::ascending::<usize>(told@)
                    &&& told@.to_set() == done.fresh(old(self)@.successors[tx_index as int])
                    &&& final(self)@ == done.notify(old(self)@.successors[tx_index as int])
                },
                Err(Error::InvalidBatch(BatchFault::DagVertexOutOfRange { index })) => {
                    &&& tx_index >= old(self)@.finished.len()
                    &&& index == tx_index
                    &&& final(self)@ == old(self)@
                },
                Err(Error::InvalidBatch(BatchFault::DagVertexFinished { index })) => {
                    &&& tx_index < old(self)@.finished.len()
                    &&& old(self)@.finished[tx_index as int]
                    &&& index == tx_index
                    &&& final(self)@ == old(self)@
                },
                Err(_) => false,
            },
    {
        proof {
            use_type_invariant(&*self);
        }
        if tx_index >= self.nodes.len() {
            return Err(Error::InvalidBatch(BatchFault::DagVertexOutOfRange { index: tx_index }));
        }
        if self.nodes[tx_index].finished {
            return Err(Error::InvalidBatch(BatchFault::DagVertexFinished { index: tx_index }));
        }
        let ghost v = self@;
        let ghost done = v.finish(tx_index as int);
        let mut nodes: Vec<DagRuntimeNode> = Vec::new();
        std::mem::swap(&mut nodes, &mut self.nodes);
        let len = nodes.len();
        let ghost start_nodes = nodes@;
        nodes[tx_index].finished = true;
        let successors = nodes[tx_index].successors.clone();
        let m = successors.len();
        let ghost items = successors.ordered();
        let ghost succ = v.successors[tx_index as int];
        assert(succ == successors@);
        let mut told: Vec<usize> = Vec::new();
        let mut s: usize = 0;
        proof {
            assert(view_of(nodes@).finished =~= done.finished);
            assert(view_of(nodes@).successors =~= done.successors);
            assert(view_of(nodes@).notified =~= done.notified);
        }
        while s < m
            invariant
                s <= m,
                m == successors.ordered().len(),
                items == successors.ordered(),
                succ == successors@,
                collections::ascending::<usize>(items),
                len == nodes.len(),
                tx_index < len,
                v.successors.len() == len,
                v.finished.len() == len,
                v.notified.len() == len,
                !v.finished[tx_index as int],
                succ == v.successors[tx_index as int],
                done == v.finish(tx_index as int),
                view_of(nodes@).finished == done.finished,
                view_of(nodes@).successors == done.successors,
                forall|i: int, j: usize|
                    0 <= i < len && #[trigger] v.successors[i].contains(j) ==> j < len,
                forall|j: int|
                    0 <= j < len ==> (#[trigger] nodes[j]).indegree == v.open_preds(
                        j as usize,
                    ).len() - (if items.take(s as int).contains(j as usize) {
                        1int
                    } else {
                        0
                    }),
                forall|j: int|
                    0 <= j < len ==> (#[trigger] nodes[j]).notified == (v.notified[j] || (
                    items.take(s as int).contains(j as usize) && done.ready(j))),
                collections::ascending::<usize>(told@),
                forall|j: usize| #[trigger]
                    told@.contains(j) <==> items.take(s as int).contains(j) && done.ready(j as int)
                        && !v.notified[j as int],
            decreases m - s,
        {
            let successor = *successors.at(s);
            let ghost before_nodes = nodes@;
            let ghost before_told = told@;
            proof {
                assert(v.successors[tx_index as int].contains(successor));
                lemma_take_members(items, s as int);
                lemma_open_preds(v, successor);
                assert(v.open_preds(successor).contains(tx_index as int));
                lemma_finish_preds(v, tx_index as int, successor);
                lemma_open_preds(done, successor);
                if v.open_preds(successor).len() == 0 {
                    assert(v.open_preds(successor) =~= Set::<int>::empty());
                }
            }
            let remaining: usize = nodes[successor].indegree - 1;
            nodes[successor].indegree = remaining;
            if remaining == 0 && !nodes[successor].notified {
                nodes[successor].notified = true;
                told.push(successor);
                proof {
                    assert forall|j: usize| #[trigger] told@.contains(j) <==> before_told.contains(j)
                        || j == successor by {
                        if before_told.contains(j) {
                            let k = choose|k: int| 0 <= k < before_told.len() && before_told[k] == j;
                            assert(told@[k] == j);
                        }
                        if told@.contains(j) && j != successor {
                            let k = choose|k: int| 0 <= k < told@.len() && told@[k] == j;
                            assert(before_told[k] == j);
                        }
                        assert(told@[told@.len() - 1] == successor);
                    }
                    assert forall|a: int, b: int| 0 <= a < b < told@.len() implies #[trigger]
                    <usize as collections::SortKey>::before(
                        #[trigger] told@[a],
                        #[trigger] told@[b],
                    ) by {
                        if b == told@.len() - 1 {
                            assert(before_told.contains(told@[a]));
                            let early = items.take(s as int);
                            assert(early.contains(told@[a]));
                            let k = choose|k: int| 0 <= k < early.len() && early[k] == told@[a];
                            assert(<usize as collections::SortKey>::before(items[k], items[s as int]));
                        } else {
                            assert(<usize as collections::SortKey>::before(
                                before_told[a],
                                before_told[b],
                            ));
                        }
                    }
                }
            }
            proof {
                assert(view_of(nodes@).finished =~= done.finished);
                assert(view_of(nodes@).successors =~= done.successors);
            }
            s += 1;
        }
        proof {
            assert(items.take(m as int) =~= items);
            assert forall|j: usize| #[trigger] items.contains(j) <==> succ.contains(j) by {}
            assert forall|j: int| 0 <= j < nodes@.len() implies (#[trigger] nodes@[j]).indegree
                == view_of(nodes@).open_preds(j as usize).len() by {
                lemma_finish_preds(v, tx_index as int, j as usize);
                assert(view_of(nodes@).open_preds(j as usize) =~= done.open_preds(j as usize));
                assert(nodes@[j].indegree == v.open_preds(j as usize).len() - (if items.contains(
                    j as usize,
                ) {
                    1int
                } else {
                    0
                }));
            }
            assert forall|i: int, j: usize|
                0 <= i < nodes@.len() && #[trigger] nodes@[i].successors@.contains(j) implies j
                < nodes@.len() by {
                assert(view_of(nodes@).successors[i] == v.successors[i]);
                assert(v.successors[i].contains(j));
            }
        }
        self.nodes = nodes;
        proof {
            assert(self@.notified =~= done.notify(succ).notified);
            assert(self@ =~= done.notify(succ));
            assert forall|j: usize| #[trigger] told@.to_set().contains(j) <==> done.fresh(
                succ,
            ).contains(j) by {
                if succ.contains(j) {
                    assert(v.successors[tx_index as int].contains(j));
                }
                assert(told@.contains(j) <==> items.contains(j) && done.ready(j as int)
                    && !v.notified[j as int]);
            }
            assert(told@.to_set() =~= done.fresh(succ));
        }
        Ok(told)
    }
}

proof fn lemma_take_members(s: Seq<usize>, i: int)
    requires
        0 <= i < s.len(),
        collections::ascending::<usize>(s),
    ensures
        forall|x: usize| #[trigger]
            s.take(i + 1).contains(x) <==> (s.take(i).contains(x) || x == s[i]),
        !s.take(i).contains(s[i]),
{
    collections::lemma_take_to_set(s, i);
    assert forall|x: usize| #[trigger] s.take(i + 1).contains(x) <==> (s.take(i).contains(x) || x
        == s[i]) by {
        assert(s.take(i + 1).to_set().contains(x) <==> s.take(i + 1).contains(x));
        assert(s.take(i).to_set().contains(x) <==> s.take(i).contains(x));
    }
    if s.take(i).contains(s[i]) {
        let t = s.take(i);
        let k = choose|k: int| 0 <= k < t.len() && t[k] == s[i];
        assert(<usize as collections::SortKey>::before(s[k], s[i]));
    }
}

proof fn lemma_same_edges(a: Seq<DagRuntimeNode>, b: Seq<DagRuntimeNode>)
    requires
        counts(a),
        a.len() == b.len(),
        forall|j: int|
            0 <= j < a.len() ==> (#[trigger] b[j]).successors == a[j].successors && b[j].finished
                == a[j].finished && b[j].indegree == a[j].indegree,
    ensures
        counts(b),
        view_of(b).successors == view_of(a).successors,
        view_of(b).finished == view_of(a).finished,
{
    assert(view_of(b).successors =~= view_of(a).successors);
    assert(view_of(b).finished =~= view_of(a).finished);
    assert forall|j: int| 0 <= j < b.len() implies (#[trigger] b[j]).indegree == view_of(
        b,
    ).open_preds(j as usize).len() by {
        assert(view_of(b).open_preds(j as usize) =~= view_of(a).open_preds(j as usize));
        assert(b[j].indegree == a[j].indegree);
    }
    assert forall|i: int, j: usize| 0 <= i < b.len() && #[trigger] b[i].successors@.contains(
        j,
    ) implies j < b.len() by {
        assert(a[i].successors@.contains(j));
    }
}

/// The vertices of both graphs that were just told to go on.
#[derive(Debug, PartialEq, Eq)]
pub struct SccReady {
    pub effect: Vec<usize>,
    pub condition: Vec<usize>,
}

/// Both graphs of a batch while they run.
pub struct SccDagRuntime {
    pub effect: DagRuntime,
    pub condition: DagRuntime,
}

impl SccDagRuntime {
    /// Both graphs have the same vertices done.
    pub open spec fn wf(&self) -> bool {
        self.effect@.finished == self.condition@.finished
    }

    pub fn new(plan: &SccBatchPlan) -> (r: Self)
        requires
            plan.effect.wf(),
            plan.condition.wf(),
            plan.effect.nodes.len() == plan.condition.nodes.len(),
        ensures
            r.wf(),
            r.effect@.successors == plan.effect.nodes@.map_values(
                |n: crate::scc::plan::DagNode| n.successors@,
            ),
            r.effect@.notified == Seq::new(plan.effect.nodes@.len(), |j: int| false),
            r.effect@.finished == Seq::new(plan.effect.nodes@.len(), |j: int| false),
            r.condition@.successors == plan.condition.nodes@.map_values(
                |n: crate::scc::plan::DagNode| n.successors@,
            ),
            r.condition@.notified == Seq::new(plan.condition.nodes@.len(), |j: int| false),
            r.condition@.finished == Seq::new(plan.condition.nodes@.len(), |j: int| false),
    {
        SccDagRuntime {
            effect: DagRuntime::new(&plan.effect),
            condition: DagRuntime::new(&plan.condition),
        }
    }

    pub fn start(&mut self) -> (r: Result<SccReady>)
        ensures
            old(self).wf() ==> final(self).wf(),
            match r {
                Ok(told) => {
                    &&& collections::ascending::<usize>(told.effect@)
                    &&& told.effect@.to_set() == old(self).effect@.fresh(
                        old(self).effect@.vertices(),
                    )
                    &&& collections::ascending::<usize>(told.condition@)
                    &&& told.condition@.to_set() == old(self).condition@.fresh(
                        old(self).condition@.vertices(),
                    )
                    &&& final(self).effect@ == old(self).effect@.notify(
                        old(self).effect@.vertices(),
                    )
                    &&& final(self).condition@ == old(self).condition@.notify(
                        old(self).condition@.vertices(),
                    )
                },
                Err(_) => false,
            },
    {
        let effect = self.effect.start()?;
        let condition = self.condition.start()?;
        Ok(SccReady { effect, condition })
    }

    /// Marks a vertex as done in both graphs.
    pub fn finish_vertex(&mut self, tx_index: usize) -> (r: Result<SccReady>)
        requires
            old(self).wf(),
        ensures
            final(self).wf(),
            match r {
                Ok(told) => {
                    let effect = old(self).effect@.finish(tx_index as int);
                    let condition = old(self).condition@.finish(tx_index as int);
                    let effect_asked = old(self).effect@.successors[tx_index as int];
                    let condition_asked = old(self).condition@.successors[tx_index as int];
                    &&& tx_index < old(self).effect@.finished.len()
                    &&& !old(self).effect@.finished[tx_index as int]
                    &&& collections::ascending::<usize>(told.effect@)
                    &&& told.effect@.to_set() == effect.fresh(effect_asked)
                    &&& collections::ascending::<usize>(told.condition@)
                    &&& told.condition@.to_set() == condition.fresh(condition_asked)
                    &&& final(self).effect@ == effect.notify(effect_asked)
                    &&& final(self).condition@ == condition.notify(condition_asked)
                },
                Err(Error::InvalidBatch(BatchFault::DagVertexOutOfRange { index })) => {
                    &&& tx_index >= old(self).effect@.finished.len()
                    &&& index == tx_index
                    &&& final(self).effect@ == old(self).effect@
                    &&& final(self).condition@ == old(self).condition@
                },
                Err(Error::InvalidBatch(BatchFault::DagVertexFinished { index })) => {
                    &&& tx_index < old(self).effect@.finished.len()
                    &&& old(self).effect@.finished[tx_index as int]
                    &&& index == tx_index
                    &&& final(self).effect@ == old(self).effect@
                    &&& final(self).condition@ == old(self).condition@
                },
                Err(_) => false,
            },
    {
        let effect = self.effect.finish_vertex(tx_index)?;
        let condition = self.condition.finish_vertex(tx_index)?;
        Ok(SccReady { effect, condition })
    }
}

} // verus!
