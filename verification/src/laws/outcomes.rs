//! What each operation answers and leaves behind, told from what is stored before it.

use crate::executor;
use crate::laws::operations;
use crate::laws::tree;
use crate::model::{
    FsOpView, Inode, NodeKind, OrderedTxView, ReadValue, TxResult, WriteOpView,
};
use crate::path;
use crate::path::Path;
use crate::serial;
use crate::state;
use crate::state::{Reads, State};
use vstd::prelude::*;

verus! {

/// What `op` answers on the state `s`.
pub open spec fn answer(s: State, op: FsOpView) -> TxResult {
    executor::execute(op, state::reads_of(s, executor::read_keys(op))).result
}

/// What `op` leaves of the state `s`.
pub open spec fn leaves(s: State, op: FsOpView) -> State {
    state::apply_writes(
        s,
        executor::execute(op, state::reads_of(s, executor::read_keys(op))).writes,
    )
}

/// A directory is stored under `p`.
pub open spec fn is_dir(s: State, p: Path) -> bool {
    s.contains_key(p) && s[p].kind == NodeKind::Directory
}

/// Nothing but what is stored under `a` and `b` differs.
pub open spec fn same_but(s: State, t: State, a: Path, b: Path) -> bool {
    forall|k: Path|
        k != a && k != b ==> (#[trigger] t.contains_key(k) <==> s.contains_key(k)) && (
        s.contains_key(k) ==> t[k] == s[k])
}

/// A look finds exactly what is stored, whatever it is, and changes nothing.
pub proof fn lemma_stat(s: State, p: Path)
    ensures
        answer(s, FsOpView::Stat { path: p }) == (if s.contains_key(p) {
            TxResult::Success
        } else {
            TxResult::NotFound
        }),
        leaves(s, FsOpView::Stat { path: p }) == s,
{
    let op = FsOpView::Stat { path: p };
    let reads = state::reads_of(s, executor::read_keys(op));
    assert(reads.contains_key(p));
    assert(reads[p] == state::value_in(s, p));
}

/// What making an entry answers: only a new entry of a directory can be made.
spec fn made_answer(s: State, p: Path) -> TxResult {
    let d = path::parent_of(p);
    if !s.contains_key(d) {
        TxResult::NotFound
    } else if s[d].kind == NodeKind::File {
        TxResult::NotDirectory
    } else if s.contains_key(p) {
        TxResult::AlreadyExists
    } else {
        TxResult::Success
    }
}

proof fn lemma_make(s: State, op: FsOpView, p: Path, kind: NodeKind)
    requires
        path::valid_path(p),
        p != path::root_path(),
        op == (FsOpView::Create { path: p }) && kind == NodeKind::File || op == (FsOpView::Mkdir {
            path: p,
        }) && kind == NodeKind::Directory,
    ensures
        answer(s, op) == made_answer(s, p),
        answer(s, op) != TxResult::Success ==> leaves(s, op) == s,
        answer(s, op) == TxResult::Success && s[path::parent_of(p)].child_count < u64::MAX ==> {
            let d = path::parent_of(p);
            let t = leaves(s, op);
            &&& t.contains_key(p) && t[p].kind == kind && t[p].child_count == 0
            &&& is_dir(t, d) && t[d].child_count == s[d].child_count + 1
            &&& same_but(s, t, p, d)
        },
        executor::overflows(op, state::reads_of(s, executor::read_keys(op))) <==> answer(s, op)
            == TxResult::Success && s[path::parent_of(p)].child_count == u64::MAX,
{
    let d = path::parent_of(p);
    let reads = state::reads_of(s, executor::read_keys(op));
    path::lemma_parent_valid(p);
    assert(reads.contains_key(p) && reads.contains_key(d));
    assert(reads[p] == state::value_in(s, p) && reads[d] == state::value_in(s, d));
    tree::lemma_two_writes(
        s,
        WriteOpView::Put { key: d, value: executor::one_more(s[d]) },
        WriteOpView::Put { key: p, value: Inode { kind, child_count: 0 } },
    );
}

/// Creating a file: the root is no file; otherwise there must be a directory to hold it,
/// and nothing under its path. It is then there as a file without entries, its directory
/// holds one entry more, and nothing else has changed.
pub proof fn lemma_create(s: State, p: Path)
    requires
        path::valid_path(p),
    ensures
        ({
            let op = FsOpView::Create { path: p };
            let d = path::parent_of(p);
            let t = leaves(s, op);
            let overflows = executor::overflows(
                op,
                state::reads_of(s, executor::read_keys(op)),
            );
            &&& answer(s, op) == TxResult::Invalid <==> p == path::root_path()
            &&& p != path::root_path() ==> {
                &&& answer(s, op) == TxResult::NotFound <==> !s.contains_key(d)
                &&& answer(s, op) == TxResult::NotDirectory <==> s.contains_key(d) && s[d].kind
                    == NodeKind::File
                &&& answer(s, op) == TxResult::AlreadyExists <==> is_dir(s, d) && s.contains_key(p)
                &&& answer(s, op) == TxResult::Success <==> is_dir(s, d) && !s.contains_key(p)
            }
            &&& answer(s, op) != TxResult::Success ==> t == s
            &&& answer(s, op) == TxResult::Success && s[d].child_count < u64::MAX ==> {
                &&& t.contains_key(p) && t[p].kind == NodeKind::File && t[p].child_count == 0
                &&& is_dir(t, d) && t[d].child_count == s[d].child_count + 1
                &&& same_but(s, t, p, d)
            }
            &&& overflows <==> answer(s, op) == TxResult::Success && s[d].child_count == u64::MAX
        }),
{
    if p != path::root_path() {
        lemma_make(s, FsOpView::Create { path: p }, p, NodeKind::File);
    }
}

/// Making a directory: the root where there is none; otherwise as for a file, but that
/// what is there then is an empty directory.
pub proof fn lemma_mkdir(s: State, p: Path)
    requires
        path::valid_path(p),
    ensures
        ({
            let op = FsOpView::Mkdir { path: p };
            let d = path::parent_of(p);
            let t = leaves(s, op);
            let overflows = executor::overflows(
                op,
                state::reads_of(s, executor::read_keys(op)),
            );
            &&& answer(s, op) != TxResult::Invalid
            &&& p == path::root_path() ==> {
                &&& answer(s, op) == TxResult::Success <==> !s.contains_key(p)
                &&& answer(s, op) == TxResult::AlreadyExists <==> s.contains_key(p)
                &&& answer(s, op) == TxResult::Success ==> is_dir(t, p) && t[p].child_count == 0
                    && same_but(s, t, p, p)
                &&& !overflows
            }
            &&& p != path::root_path() ==> {
                &&& answer(s, op) == TxResult::NotFound <==> !s.contains_key(d)
                &&& answer(s, op) == TxResult::NotDirectory <==> s.contains_key(d) && s[d].kind
                    == NodeKind::File
                &&& answer(s, op) == TxResult::AlreadyExists <==> is_dir(s, d) && s.contains_key(p)
                &&& answer(s, op) == TxResult::Success <==> is_dir(s, d) && !s.contains_key(p)
                &&& answer(s, op) == TxResult::Success && s[d].child_count < u64::MAX ==> {
                    &&& is_dir(t, p) && t[p].child_count == 0
                    &&& is_dir(t, d) && t[d].child_count == s[d].child_count + 1
                    &&& same_but(s, t, p, d)
                }
                &&& overflows <==> answer(s, op) == TxResult::Success && s[d].child_count
                    == u64::MAX
            }
            &&& answer(s, op) != TxResult::Success ==> t == s
        }),
{
    let op = FsOpView::Mkdir { path: p };
    if p != path::root_path() {
        lemma_make(s, op, p, NodeKind::Directory);
    } else {
        let reads = state::reads_of(s, executor::read_keys(op));
        assert(reads.contains_key(p) && reads[p] == state::value_in(s, p));
        let put = WriteOpView::Put {
            key: p,
            value: Inode { kind: NodeKind::Directory, child_count: 0 },
        };
        reveal_with_fuel(state::apply_writes, 2);
        assert(seq![put].drop_last() =~= Seq::<WriteOpView>::empty());
    }
}

proof fn lemma_take_out(s: State, op: FsOpView, p: Path, kind: NodeKind)
    requires
        path::valid_path(p),
        p != path::root_path(),
        op == (FsOpView::Unlink { path: p }) && kind == NodeKind::File || op == (FsOpView::Rmdir {
            path: p,
        }) && kind == NodeKind::Directory,
        answer(s, op) == TxResult::Success,
    ensures
        ({
            let d = path::parent_of(p);
            let t = leaves(s, op);
            &&& !t.contains_key(p)
            &&& is_dir(t, d)
            &&& s[d].child_count > 0 ==> t[d].child_count == s[d].child_count - 1
            &&& s[d].child_count == 0 ==> t[d].child_count == 0
            &&& same_but(s, t, p, d)
        }),
{
    let d = path::parent_of(p);
    let reads = state::reads_of(s, executor::read_keys(op));
    path::lemma_parent_valid(p);
    assert(reads.contains_key(p) && reads.contains_key(d));
    assert(reads[p] == state::value_in(s, p) && reads[d] == state::value_in(s, d));
    tree::lemma_two_writes(
        s,
        WriteOpView::Put { key: d, value: executor::one_less(s[d]) },
        WriteOpView::Delete { key: p },
    );
}

/// Removing a file: only a file in a directory, never a directory. It is then gone, its
/// directory holds one entry less, and nothing else has changed.
pub proof fn lemma_unlink(s: State, p: Path)
    requires
        path::valid_path(p),
    ensures
        ({
            let op = FsOpView::Unlink { path: p };
            let d = path::parent_of(p);
            let t = leaves(s, op);
            &&& p == path::root_path() ==> answer(s, op) == TxResult::Invalid
            &&& p != path::root_path() ==> {
                &&& answer(s, op) == TxResult::NotFound <==> !s.contains_key(d) || is_dir(s, d)
                    && !s.contains_key(p)
                &&& answer(s, op) == TxResult::NotDirectory <==> s.contains_key(d) && s[d].kind
                    == NodeKind::File
                &&& answer(s, op) == TxResult::Invalid <==> is_dir(s, d) && is_dir(s, p)
                &&& answer(s, op) == TxResult::Success <==> is_dir(s, d) && s.contains_key(p)
                    && s[p].kind == NodeKind::File
            }
            &&& answer(s, op) != TxResult::Success ==> t == s
            &&& answer(s, op) == TxResult::Success ==> {
                &&& !t.contains_key(p)
                &&& is_dir(t, d)
                &&& s[d].child_count > 0 ==> t[d].child_count == s[d].child_count - 1
                &&& s[d].child_count == 0 ==> t[d].child_count == 0
                &&& same_but(s, t, p, d)
            }
            &&& !executor::overflows(op, state::reads_of(s, executor::read_keys(op)))
        }),
{
    let op = FsOpView::Unlink { path: p };
    if p != path::root_path() {
        let d = path::parent_of(p);
        let reads = state::reads_of(s, executor::read_keys(op));
        assert(reads.contains_key(p) && reads.contains_key(d));
        assert(reads[p] == state::value_in(s, p) && reads[d] == state::value_in(s, d));
        if answer(s, op) == TxResult::Success {
            lemma_take_out(s, op, p, NodeKind::File);
        }
    }
}

/// Removing a directory: only an empty one in a directory. It is then gone, the directory
/// that held it holds one entry less, and nothing else has changed.
pub proof fn lemma_rmdir(s: State, p: Path)
    requires
        path::valid_path(p),
    ensures
        ({
            let op = FsOpView::Rmdir { path: p };
            let d = path::parent_of(p);
            let t = leaves(s, op);
            &&& answer(s, op) == TxResult::Invalid <==> p == path::root_path()
            &&& p != path::root_path() ==> {
                &&& answer(s, op) == TxResult::NotFound <==> !s.contains_key(d) || is_dir(s, d)
                    && !s.contains_key(p)
                &&& answer(s, op) == TxResult::NotDirectory <==> s.contains_key(d) && (s[d].kind
                    == NodeKind::File || s.contains_key(p) && s[p].kind == NodeKind::File)
                &&& answer(s, op) == TxResult::DirectoryNotEmpty <==> is_dir(s, d) && is_dir(s, p)
                    && s[p].child_count > 0
                &&& answer(s, op) == TxResult::Success <==> is_dir(s, d) && is_dir(s, p)
                    && s[p].child_count == 0
            }
            &&& answer(s, op) != TxResult::Success ==> t == s
            &&& answer(s, op) == TxResult::Success ==> {
                &&& !t.contains_key(p)
                &&& is_dir(t, d)
                &&& s[d].child_count > 0 ==> t[d].child_count == s[d].child_count - 1
                &&& s[d].child_count == 0 ==> t[d].child_count == 0
                &&& same_but(s, t, p, d)
            }
            &&& !executor::overflows(op, state::reads_of(s, executor::read_keys(op)))
        }),
{
    let op = FsOpView::Rmdir { path: p };
    if p != path::root_path() {
        let d = path::parent_of(p);
        let reads = state::reads_of(s, executor::read_keys(op));
        assert(reads.contains_key(p) && reads.contains_key(d));
        assert(reads[p] == state::value_in(s, p) && reads[d] == state::value_in(s, d));
        if answer(s, op) == TxResult::Success {
            lemma_take_out(s, op, p, NodeKind::Directory);
        }
    }
}

/// What a rename answers: neither path is the root and they differ; both are to be in
/// directories; there is a file or an empty directory to move, and room for it.
pub proof fn lemma_rename_answer(s: State, src: Path, dst: Path)
    requires
        path::valid_path(src),
        path::valid_path(dst),
    ensures
        ({
            let op = FsOpView::Rename { src, dst };
            let sd = path::parent_of(src);
            let dd = path::parent_of(dst);
            let root = path::root_path();
            let both_dirs = is_dir(s, sd) && is_dir(s, dd);
            &&& answer(s, op) == TxResult::Invalid <==> src == dst || src == root || dst == root
            &&& src != dst && src != root && dst != root ==> {
                &&& answer(s, op) == TxResult::NotFound <==> !s.contains_key(sd)
                    || !s.contains_key(dd) || both_dirs && !s.contains_key(src)
                &&& answer(s, op) == TxResult::NotDirectory <==> s.contains_key(sd)
                    && s.contains_key(dd) && !both_dirs
                &&& answer(s, op) == TxResult::AlreadyExists <==> both_dirs && s.contains_key(src)
                    && s.contains_key(dst)
                &&& answer(s, op) == TxResult::DirectoryNotEmpty <==> both_dirs && is_dir(s, src)
                    && s[src].child_count > 0 && !s.contains_key(dst)
                &&& answer(s, op) == TxResult::Success <==> both_dirs && s.contains_key(src)
                    && !s.contains_key(dst) && (s[src].kind == NodeKind::File
                    || s[src].child_count == 0)
            }
            &&& answer(s, op) != TxResult::Success ==> leaves(s, op) == s
            &&& executor::overflows(op, state::reads_of(s, executor::read_keys(op))) <==> answer(
                s,
                op,
            ) == TxResult::Success && sd != dd && s[dd].child_count == u64::MAX
        }),
{
    let op = FsOpView::Rename { src, dst };
    let reads = state::reads_of(s, executor::read_keys(op));
    if src != dst && src != path::root_path() && dst != path::root_path() {
        let sd = path::parent_of(src);
        let dd = path::parent_of(dst);
        assert(reads.contains_key(src) && reads.contains_key(dst));
        assert(reads.contains_key(sd) && reads.contains_key(dd));
        assert(reads[src] == state::value_in(s, src) && reads[dst] == state::value_in(s, dst));
        assert(reads[sd] == state::value_in(s, sd) && reads[dd] == state::value_in(s, dd));
    }
}

/// A rename that succeeds moves what was stored, as it was: it is gone from its old path
/// and stands under the new one, of the same kind and with the same count. Where the
/// directory changes, the old one holds one entry less and the new one one more; nothing
/// else has changed. Left out are moving a directory into itself and a count that would
/// overflow.
pub proof fn lemma_rename_moves(s: State, src: Path, dst: Path)
    requires
        path::valid_path(src),
        path::valid_path(dst),
        answer(s, FsOpView::Rename { src, dst }) == TxResult::Success,
        path::parent_of(dst) != src,
        path::parent_of(src) != path::parent_of(dst) ==> s[path::parent_of(dst)].child_count
            < u64::MAX,
    ensures
        ({
            let t = leaves(s, FsOpView::Rename { src, dst });
            let sd = path::parent_of(src);
            let dd = path::parent_of(dst);
            &&& !t.contains_key(src)
            &&& t.contains_key(dst) && t[dst] == s[src]
            &&& sd == dd ==> same_but(s, t, src, dst)
            &&& sd != dd ==> {
                &&& is_dir(t, sd) && is_dir(t, dd)
                &&& s[sd].child_count > 0 ==> t[sd].child_count == s[sd].child_count - 1
                &&& s[sd].child_count == 0 ==> t[sd].child_count == 0
                &&& t[dd].child_count == s[dd].child_count + 1
                &&& forall|k: Path|
                    k != src && k != dst && k != sd && k != dd ==> (#[trigger] t.contains_key(k)
                        <==> s.contains_key(k)) && (s.contains_key(k) ==> t[k] == s[k])
            }
        }),
{
    let op = FsOpView::Rename { src, dst };
    lemma_rename_answer(s, src, dst);
    let sd = path::parent_of(src);
    let dd = path::parent_of(dst);
    path::lemma_parent_valid(src);
    path::lemma_parent_valid(dst);
    let reads = state::reads_of(s, executor::read_keys(op));
    assert(reads.contains_key(src) && reads.contains_key(dst));
    assert(reads.contains_key(sd) && reads.contains_key(dd));
    assert(sd != dst);
    if sd == dd {
        tree::lemma_two_writes(
            s,
            WriteOpView::Delete { key: src },
            WriteOpView::Put { key: dst, value: s[src] },
        );
    } else {
        tree::lemma_four_writes(
            s,
            WriteOpView::Delete { key: src },
            WriteOpView::Put { key: dst, value: s[src] },
            WriteOpView::Put { key: sd, value: executor::one_less(s[sd]) },
            WriteOpView::Put { key: dd, value: executor::one_more(s[dd]) },
        );
    }
}

/// What an operation made can be used as what it is: a file can be created in a directory
/// that was made or moved there.
pub proof fn lemma_made_directory_holds(s: State, p: Path, inside: Path)
    requires
        path::valid_path(p),
        path::valid_path(inside),
        inside != path::root_path(),
        path::parent_of(inside) == p,
        p != path::root_path(),
        answer(s, FsOpView::Mkdir { path: p }) == TxResult::Success,
        s[path::parent_of(p)].child_count < u64::MAX,
        !s.contains_key(inside),
    ensures
        answer(
            leaves(s, FsOpView::Mkdir { path: p }),
            FsOpView::Create { path: inside },
        ) == TxResult::Success,
{
    lemma_mkdir(s, p);
    path::lemma_parent_valid(inside);
    path::lemma_parent_valid(p);
    let t = leaves(s, FsOpView::Mkdir { path: p });
    lemma_create(t, inside);
}

/// Whoever moved something can move it back, and finds everything as it was. Left out are
/// moving a directory into itself and counts at their limits.
pub proof fn lemma_rename_back(s: State, src: Path, dst: Path)
    requires
        path::valid_path(src),
        path::valid_path(dst),
        answer(s, FsOpView::Rename { src, dst }) == TxResult::Success,
        path::parent_of(dst) != src,
        path::parent_of(src) != dst,
        path::parent_of(src) != path::parent_of(dst) ==> s[path::parent_of(dst)].child_count
            < u64::MAX && s[path::parent_of(src)].child_count > 0,
    ensures
        ({
            let t = leaves(s, FsOpView::Rename { src, dst });
            let back = FsOpView::Rename { src: dst, dst: src };
            answer(t, back) == TxResult::Success && leaves(t, back) == s
        }),
{
    let t = leaves(s, FsOpView::Rename { src, dst });
    let back = FsOpView::Rename { src: dst, dst: src };
    lemma_rename_answer(s, src, dst);
    lemma_rename_moves(s, src, dst);
    path::lemma_parent_valid(src);
    path::lemma_parent_valid(dst);
    lemma_rename_answer(t, dst, src);
    lemma_rename_moves(t, dst, src);
    let u = leaves(t, back);
    assert forall|k: Path| #[trigger] u.contains_key(k) <==> s.contains_key(k) by {
        assert(t.contains_key(k) == t.contains_key(k));
    }
    assert(u =~= s);
}

/// An operation answers the same for all who know what is stored under the keys it reads.
pub proof fn lemma_answer_from_reads(s: State, op: FsOpView, reads: Reads)
    requires
        operations::reads_from(reads, s, op),
    ensures
        executor::execute(op, reads).result == answer(s, op),
        state::apply_writes(s, executor::execute(op, reads).writes) == leaves(s, op),
{
    let own = state::reads_of(s, executor::read_keys(op));
    operations::lemma_reads_decide(op, reads, own);
}

/// An operation that succeeds knows the value of every key that it reads.
pub proof fn lemma_success_knows_all(op: FsOpView, reads: Reads, key: Path)
    requires
        op.valid(),
        executor::execute(op, reads).result == TxResult::Success,
        executor::read_keys(op).contains(key),
    ensures
        reads.contains_key(key),
{
}

/// Moving an empty directory to a path right inside itself leaves both in place: the
/// directory, now with that entry, which is what the directory was.
pub proof fn lemma_rename_inside(s: State, src: Path, dst: Path)
    requires
        path::valid_path(src),
        path::valid_path(dst),
        path::parent_of(dst) == src,
        answer(s, FsOpView::Rename { src, dst }) == TxResult::Success,
    ensures
        ({
            let t = leaves(s, FsOpView::Rename { src, dst });
            let sd = path::parent_of(src);
            &&& t.contains_key(dst) && t[dst] == s[src]
            &&& is_dir(t, src) && t[src].child_count == 1
            &&& is_dir(t, sd)
            &&& s[sd].child_count > 0 ==> t[sd].child_count == s[sd].child_count - 1
            &&& forall|k: Path|
                k != src && k != dst && k != sd ==> (#[trigger] t.contains_key(k)
                    <==> s.contains_key(k)) && (s.contains_key(k) ==> t[k] == s[k])
        }),
{
    let op = FsOpView::Rename { src, dst };
    lemma_rename_answer(s, src, dst);
    let sd = path::parent_of(src);
    path::lemma_parent_valid(src);
    path::lemma_parent_valid(dst);
    let reads = state::reads_of(s, executor::read_keys(op));
    assert(reads.contains_key(src) && reads.contains_key(dst) && reads.contains_key(sd));
    assert(sd != dst);
    tree::lemma_four_writes(
        s,
        WriteOpView::Delete { key: src },
        WriteOpView::Put { key: dst, value: s[src] },
        WriteOpView::Put { key: sd, value: executor::one_less(s[sd]) },
        WriteOpView::Put { key: src, value: executor::one_more(s[src]) },
    );
}

/// An operation reads the paths that it names, and, but for a look, the directories that
/// hold them; a look writes nothing, all others may write what they read.
pub proof fn lemma_keys_of(op: FsOpView, key: Path)
    requires
        op.valid(),
    ensures
        ({
            let held = |p: Path| key == p || p != path::root_path() && key == path::parent_of(p);
            match op {
                FsOpView::Stat { path } => {
                    &&& executor::read_keys(op).contains(key) <==> key == path
                    &&& !executor::write_keys(op).contains(key)
                },
                FsOpView::Rename { src, dst } => {
                    &&& executor::read_keys(op).contains(key) <==> held(src) || held(dst)
                    &&& executor::write_keys(op).contains(key) <==> held(src) || held(dst)
                },
                FsOpView::Create { path } | FsOpView::Mkdir { path } | FsOpView::Unlink {
                    path,
                } | FsOpView::Rmdir { path } => {
                    &&& executor::read_keys(op).contains(key) <==> held(path)
                    &&& executor::write_keys(op).contains(key) <==> held(path)
                },
            }
        }),
{
}

/// A transaction that names the keys of its operation leaves what the operation leaves;
/// transactions run one after the other, the first one first.
pub proof fn lemma_serial_run(s: State, tx: OrderedTxView, rest: Seq<OrderedTxView>)
    requires
        tx.read_set == executor::read_keys(tx.op),
    ensures
        serial::run_tx(s, tx) == leaves(s, tx.op),
        serial::run_txs(s, Seq::empty()) == s,
        serial::run_txs(s, seq![tx] + rest) == serial::run_txs(leaves(s, tx.op), rest),
{
    serial::lemma_run_concat(s, seq![tx], rest);
    assert(seq![tx].drop_last() =~= Seq::<OrderedTxView>::empty());
    reveal_with_fuel(serial::run_txs, 2);
}

/// A written value is what is read next, a deleted one is missing, and other keys are as
/// they were; of several writes the last counts.
pub proof fn lemma_writes_are_read(s: State, earlier: Seq<WriteOpView>, last: WriteOpView, key: Path)
    ensures
        ({
            let t = state::apply_writes(s, earlier.push(last));
            match last {
                WriteOpView::Put { key: k, value } if k == key => t.contains_key(key) && t[key]
                    == value,
                WriteOpView::Delete { key: k } if k == key => !t.contains_key(key),
                _ => {
                    let before = state::apply_writes(s, earlier);
                    &&& t.contains_key(key) <==> before.contains_key(key)
                    &&& t.contains_key(key) ==> t[key] == before[key]
                },
            }
        }),
        state::apply_writes(s, Seq::empty()) == s,
{
    assert(earlier.push(last).drop_last() =~= earlier);
}

/// A read finds what is stored, and finds nothing where nothing is.
pub proof fn lemma_read_finds(s: State, keys: Set<Path>, key: Path)
    ensures
        ({
            let reads = state::reads_of(s, keys);
            &&& reads.contains_key(key) <==> keys.contains(key)
            &&& keys.contains(key) && s.contains_key(key) ==> reads[key] == ReadValue::Present(
                s[key],
            )
            &&& keys.contains(key) && !s.contains_key(key) ==> reads[key] == ReadValue::Missing
        }),
{
}

} // verus!
