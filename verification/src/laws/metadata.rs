//! The workload to try a cluster on: no path twice, and everything succeeds.

use crate::engine::calvin;
use crate::executor;
use crate::laws::tree;
use crate::model::{FsOp, FsOpView, Inode, NodeKind, OrderedTxView, TxResult, WriteOpView};
use crate::path;
use crate::path::Path;
use crate::scc::tables;
use crate::serial;
use crate::state;
use crate::state::State;
use crate::workload;
use vstd::prelude::*;

verus! {

/// The operation at place `g` of the whole workload.
pub open spec fn op_of(batch_size: nat, g: nat) -> FsOpView {
    workload::op_at(g / batch_size, batch_size, g % batch_size)
}

/// The path that the operation at place `g` makes.
spec fn target(batch_size: nat, g: nat) -> Path {
    tables::target_of(op_of(batch_size, g))
}

/// What it makes there.
spec fn kind(batch_size: nat, g: nat) -> NodeKind {
    if op_of(batch_size, g) is Mkdir {
        NodeKind::Directory
    } else {
        NodeKind::File
    }
}

/// The number of a file within its batch.
spec fn file_number(batch_size: nat, g: nat) -> nat {
    if g / batch_size > 0 {
        g % batch_size
    } else {
        (g % batch_size - 1 - workload::dir_count(batch_size)) as nat
    }
}

proof fn lemma_decimal_injective(a: nat, b: nat)
    requires
        workload::decimal(a) == workload::decimal(b),
    ensures
        a == b,
    decreases a,
{
    workload::lemma_decimal(a / 10);
    workload::lemma_decimal(b / 10);
    let x = workload::decimal(a);
    let y = workload::decimal(b);
    assert(x.last() == y.last());
    if a >= 10 {
        assert(b >= 10);
        assert(x.drop_last() =~= workload::decimal(a / 10));
        assert(y.drop_last() =~= workload::decimal(b / 10));
        lemma_decimal_injective(a / 10, b / 10);
        assert(a % 10 == b % 10);
    } else {
        assert(b < 10) by {
            if b >= 10 {
                assert(y.len() == workload::decimal(b / 10).len() + 1);
            }
        }
    }
}

proof fn lemma_file_name_injective(b: nat, f: nat, c: nat, g: nat)
    requires
        workload::file_name(b, f) == workload::file_name(c, g),
    ensures
        b == c,
        f == g,
{
    reveal_strlit("b");
    reveal_strlit("_file_");
    workload::lemma_decimal(b);
    workload::lemma_decimal(c);
    let x = workload::file_name(b, f);
    let y = workload::file_name(c, g);
    let m = workload::decimal(b).len() as int;
    let n = workload::decimal(c).len() as int;
    assert(x[1 + m] == '_');
    assert(y[1 + n] == '_');
    if m < n {
        assert(y[1 + m] == workload::decimal(c)[m]);
    }
    if n < m {
        assert(x[1 + n] == workload::decimal(b)[n]);
    }
    assert(x.subrange(1, 1 + m) =~= workload::decimal(b));
    assert(y.subrange(1, 1 + n) =~= workload::decimal(c));
    lemma_decimal_injective(b, c);
    assert(x.skip(7 + m) =~= workload::decimal(f));
    assert(y.skip(7 + n) =~= workload::decimal(g));
    lemma_decimal_injective(f, g);
}

/// A path is the directory that holds it and a name.
proof fn lemma_split(front: Path, name: Seq<char>)
    requires
        workload::plain(name),
    ensures
        path::last_slash(front + seq!['/'] + name) == front.len(),
        (front + seq!['/'] + name).skip(front.len() as int + 1) == name,
        (front + seq!['/'] + name).take(front.len() as int) == front,
{
    let p = front + seq!['/'] + name;
    let n = front.len() as int;
    assert forall|m: int| n < m < p.len() implies p[m] != '/' by {
        assert(p[m] == name[m - n - 1]);
    }
    assert(path::last_slash_at(p, n));
    path::lemma_last_slash_unique(p, n);
    assert(p.skip(n + 1) =~= name);
    assert(p.take(n) =~= front);
}

proof fn lemma_dir(dir: nat)
    ensures
        path::parent_of(workload::dir_path(dir)) == path::root_path(),
        workload::dir_path(dir) != path::root_path(),
        path::last_slash(workload::dir_path(dir)) == 0,
        workload::dir_path(dir).skip(1) == workload::dir_name(dir),
{
    workload::lemma_plain_names(dir, 0, 0);
    workload::lemma_paths(dir, 0, 0);
    let none: Path = Seq::empty();
    assert(none + seq!['/'] + workload::dir_name(dir) =~= workload::dir_path(dir));
    lemma_split(none, workload::dir_name(dir));
    assert(workload::dir_path(dir).len() > 1);
    assert(path::root_path().len() == 1);
}

proof fn lemma_file(dir: nat, b: nat, f: nat)
    ensures
        path::parent_of(workload::file_path(dir, b, f)) == workload::dir_path(dir),
        workload::file_path(dir, b, f) != path::root_path(),
        path::last_slash(workload::file_path(dir, b, f)) > 0,
        workload::file_path(dir, b, f).skip(
            path::last_slash(workload::file_path(dir, b, f)) + 1,
        ) == workload::file_name(b, f),
{
    workload::lemma_plain_names(dir, b, f);
    lemma_dir(dir);
    lemma_split(workload::dir_path(dir), workload::file_name(b, f));
    assert(workload::file_path(dir, b, f).len() > 1);
    assert(path::root_path().len() == 1);
}

/// What stands at a place: the root first, then the directories, then files.
proof fn lemma_place(batch_size: nat, g: nat)
    requires
        batch_size >= 2,
    ensures
        ({
            let dirs = workload::dir_count(batch_size);
            &&& 0 < dirs < batch_size
            &&& g == batch_size * (g / batch_size) + g % batch_size
            &&& g % batch_size < batch_size
            &&& g < batch_size ==> g / batch_size == 0 && g % batch_size == g
            &&& if g == 0 {
                op_of(batch_size, g) == (FsOpView::Mkdir { path: path::root_path() })
            } else if g <= dirs {
                op_of(batch_size, g) == (FsOpView::Mkdir {
                    path: workload::dir_path((g - 1) as nat),
                })
            } else {
                let f = file_number(batch_size, g);
                let d = workload::dir_of(batch_size, f);
                &&& d < dirs
                &&& d + 1 < g
                &&& op_of(batch_size, g) == (FsOpView::Create {
                    path: workload::file_path(d, g / batch_size, f),
                })
            }
        }),
{
    let n = batch_size as int;
    let dirs = workload::dir_count(batch_size) as int;
    vstd::arithmetic::div_mod::lemma_fundamental_div_mod(g as int, n);
    vstd::arithmetic::div_mod::lemma_mod_bound(g as int, n);
    if g < batch_size {
        vstd::arithmetic::div_mod::lemma_basic_div(g as int, n);
        vstd::arithmetic::div_mod::lemma_small_mod(g, batch_size);
    } else {
        vstd::arithmetic::div_mod::lemma_div_non_zero(g as int, n);
    }
    if g > dirs {
        vstd::arithmetic::div_mod::lemma_mod_bound(
            file_number(batch_size, g) as int,
            dirs,
        );
    }
}

/// No two operations make the same path.
proof fn lemma_targets_differ(batch_size: nat, g: nat, h: nat)
    requires
        batch_size >= 2,
        g < h,
    ensures
        target(batch_size, g) != target(batch_size, h),
{
    let dirs = workload::dir_count(batch_size);
    lemma_place(batch_size, g);
    lemma_place(batch_size, h);
    if h <= dirs {
        lemma_dir((h - 1) as nat);
        if g > 0 {
            lemma_dir((g - 1) as nat);
            if target(batch_size, g) == target(batch_size, h) {
                reveal_strlit("dir_");
                let a = (g - 1) as nat;
                let b = (h - 1) as nat;
                assert(workload::dir_name(a).skip(4) =~= workload::decimal(a));
                assert(workload::dir_name(b).skip(4) =~= workload::decimal(b));
                lemma_decimal_injective(a, b);
            }
        }
    } else {
        let f = file_number(batch_size, h);
        lemma_file(workload::dir_of(batch_size, f), h / batch_size, f);
        if g > dirs {
            let e = file_number(batch_size, g);
            lemma_file(workload::dir_of(batch_size, e), g / batch_size, e);
            if target(batch_size, g) == target(batch_size, h) {
                lemma_file_name_injective(g / batch_size, e, h / batch_size, f);
            }
        } else if g > 0 {
            lemma_dir((g - 1) as nat);
        }
    }
}

/// The first `g` operations made their paths, and there is nothing else.
spec fn made(s: State, batch_size: nat, g: nat) -> bool {
    &&& forall|h: nat|
        h < g ==> s.contains_key(#[trigger] target(batch_size, h)) && s[target(
            batch_size,
            h,
        )].kind == kind(batch_size, h)
    &&& forall|p: Path| #[trigger]
        s.contains_key(p) ==> exists|h: nat| h < g && #[trigger] target(batch_size, h) == p
}

/// `s` with the entry that the operation at place `g` makes.
proof fn lemma_makes(s: State, batch_size: nat, g: nat, t: State, dir: Path, node: Inode)
    requires
        batch_size >= 2,
        made(s, batch_size, g),
        node.kind == kind(batch_size, g),
        t == s.insert(target(batch_size, g), node) || s.contains_key(dir) && t == s.insert(
            dir,
            executor::one_more(s[dir]),
        ).insert(target(batch_size, g), node),
    ensures
        made(t, batch_size, (g + 1) as nat),
{
    assert forall|h: nat| h < g + 1 implies t.contains_key(#[trigger] target(batch_size, h))
        && t[target(batch_size, h)].kind == kind(batch_size, h) by {
        if h < g {
            lemma_targets_differ(batch_size, h, g);
            assert(s.contains_key(target(batch_size, h)));
        }
    }
    assert forall|p: Path| #[trigger] t.contains_key(p) implies exists|h: nat|
        h < g + 1 && #[trigger] target(batch_size, h) == p by {
        if p == target(batch_size, g) {
        } else {
            assert(s.contains_key(p));
            let h = choose|h: nat| h < g && #[trigger] target(batch_size, h) == p;
            assert(target(batch_size, h) == p);
        }
    }
}

/// The operation at place `g` succeeds where those before it were made.
proof fn lemma_next_succeeds(s: State, batch_size: nat, g: nat, tx: OrderedTxView)
    requires
        batch_size >= 2,
        made(s, batch_size, g),
        calvin::sets_match(tx),
        tx.op == op_of(batch_size, g),
    ensures
        executor::execute(tx.op, state::reads_of(s, tx.read_set)).result == TxResult::Success,
        made(serial::run_tx(s, tx), batch_size, (g + 1) as nat),
{
    let dirs = workload::dir_count(batch_size);
    let p = target(batch_size, g);
    let reads = state::reads_of(s, tx.read_set);
    let t = serial::run_tx(s, tx);
    lemma_place(batch_size, g);
    lemma_place(batch_size, 0);
    if s.contains_key(p) {
        let h = choose|h: nat| h < g && #[trigger] target(batch_size, h) == p;
        lemma_targets_differ(batch_size, h, g);
    }
    assert(reads.contains_key(p));
    if g == 0 {
        let node = Inode { kind: NodeKind::Directory, child_count: 0 };
        reveal_with_fuel(state::apply_writes, 2);
        let put = WriteOpView::Put { key: p, value: node };
        assert(seq![put].drop_last() =~= Seq::<WriteOpView>::empty());
        lemma_makes(s, batch_size, g, t, p, node);
    } else {
        let node = Inode { kind: kind(batch_size, g), child_count: 0 };
        let d = path::parent_of(p);
        if g <= dirs {
            lemma_dir((g - 1) as nat);
            assert(target(batch_size, 0) == d);
        } else {
            let f = file_number(batch_size, g);
            let dir = workload::dir_of(batch_size, f);
            lemma_file(dir, g / batch_size, f);
            lemma_place(batch_size, dir + 1);
            assert(target(batch_size, dir + 1) == d);
        }
        assert(s.contains_key(d) && s[d].kind == NodeKind::Directory);
        assert(reads.contains_key(d));
        tree::lemma_two_writes(
            s,
            WriteOpView::Put { key: d, value: executor::one_more(s[d]) },
            WriteOpView::Put { key: p, value: node },
        );
        lemma_makes(s, batch_size, g, t, d, node);
    }
}

proof fn lemma_made_so_far(txs: Seq<OrderedTxView>, batch_size: nat, g: int)
    requires
        batch_size >= 2,
        0 <= g <= txs.len(),
        forall|i: int|
            0 <= i < g ==> calvin::sets_match(#[trigger] txs[i]) && txs[i].op == op_of(
                batch_size,
                i as nat,
            ),
    ensures
        made(serial::run_txs(Map::empty(), txs.take(g)), batch_size, g as nat),
    decreases g,
{
    if g > 0 {
        lemma_made_so_far(txs, batch_size, g - 1);
        assert(txs.take(g).drop_last() =~= txs.take(g - 1));
        assert(calvin::sets_match(txs[g - 1]));
        lemma_next_succeeds(
            serial::run_txs(Map::empty(), txs.take(g - 1)),
            batch_size,
            (g - 1) as nat,
            txs[g - 1],
        );
    }
}

/// `txs` are the operations of `batches`, one batch after the other, with their key sets.
pub open spec fn runs_workload(
    txs: Seq<OrderedTxView>,
    batches: Seq<Vec<FsOp>>,
    batch_size: nat,
) -> bool {
    &&& txs.len() == batches.len() * batch_size
    &&& forall|g: int|
        0 <= g < txs.len() ==> calvin::sets_match(#[trigger] txs[g]) && txs[g].op == batches[g
            / batch_size as int]@[g % batch_size as int]@
}

/// The operations of the workload make different paths, and run one after the other from
/// nothing each of them succeeds. A batch must have room for a directory.
pub proof fn lemma_workload_succeeds(
    batches: Seq<Vec<FsOp>>,
    batch_size: nat,
    txs: Seq<OrderedTxView>,
)
    requires
        batch_size >= 2,
        forall|b: int|
            0 <= b < batches.len() ==> workload::is_batch(
                (#[trigger] batches[b])@,
                b as nat,
                batch_size,
            ),
        runs_workload(txs, batches, batch_size),
    ensures
        forall|g: int, h: int|
            0 <= g < h < txs.len() ==> tables::target_of((#[trigger] txs[g]).op)
                != tables::target_of((#[trigger] txs[h]).op),
        forall|g: int|
            0 <= g < txs.len() ==> executor::execute(
                (#[trigger] txs[g]).op,
                state::reads_of(
                    serial::run_txs(Map::empty(), txs.take(g)),
                    txs[g].read_set,
                ),
            ).result == TxResult::Success,
{
    assert forall|g: int| 0 <= g < txs.len() implies calvin::sets_match(#[trigger] txs[g])
        && txs[g].op == op_of(batch_size, g as nat) by {
        let b = g / batch_size as int;
        lemma_place(batch_size, g as nat);
        assert(0 <= b < batches.len()) by (nonlinear_arith)
            requires
                g == batch_size * b + g % batch_size as int,
                0 <= g % batch_size as int,
                0 <= g < batches.len() * batch_size,
                0 <= g % (batch_size as int) < batch_size,
                batch_size >= 2,
        ;
        assert(workload::is_batch(batches[b]@, b as nat, batch_size));
    }
    assert forall|g: int, h: int| 0 <= g < h < txs.len() implies tables::target_of(
        (#[trigger] txs[g]).op,
    ) != tables::target_of((#[trigger] txs[h]).op) by {
        lemma_targets_differ(batch_size, g as nat, h as nat);
    }
    assert forall|g: int| 0 <= g < txs.len() implies executor::execute(
        (#[trigger] txs[g]).op,
        state::reads_of(serial::run_txs(Map::empty(), txs.take(g)), txs[g].read_set),
    ).result == TxResult::Success by {
        lemma_made_so_far(txs, batch_size, g);
        lemma_next_succeeds(
            serial::run_txs(Map::empty(), txs.take(g)),
            batch_size,
            g as nat,
            txs[g],
        );
    }
}

} // verus!
