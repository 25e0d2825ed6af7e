//! Where the workload puts its files: each directory in turn, so that none gets more than
//! one file more than another.

use crate::laws::names;
use crate::model::{FsOp, FsOpView};
use crate::path;
use crate::path::Path;
use crate::workload;
use vstd::prelude::*;

verus! {

/// The number that a text of digits stands for.
pub open spec fn number(text: Seq<char>) -> int
    decreases text.len(),
{
    if text.len() == 0 {
        0
    } else {
        10 * number(text.drop_last()) + (text.last() as int - '0' as int)
    }
}

/// The file of that number of that batch.
pub open spec fn file_text(batch: nat, file: nat) -> Seq<char> {
    seq!['b'] + workload::decimal(batch) + seq!['_', 'f', 'i', 'l', 'e', '_'] + workload::decimal(
        file,
    )
}

/// The directory of that number, under the root.
pub open spec fn numbered(dir: nat) -> Path {
    seq!['/', 'd', 'i', 'r', '_'] + workload::decimal(dir)
}

/// Directories that there are to put files in: one for each further operation of the first
/// batch, but no more than a limit.
pub open spec fn room(batch_size: nat) -> nat {
    if batch_size <= 2 {
        1
    } else if batch_size <= 257 {
        (batch_size - 1) as nat
    } else {
        256
    }
}

/// The place of the first file of a batch: the first batch makes the root and the
/// directories before.
pub open spec fn first_file(batch: nat, batch_size: nat) -> nat {
    if batch > 0 {
        0
    } else if batch_size <= 1 {
        1
    } else {
        1 + room(batch_size)
    }
}

/// How many of the first `n` operations make a file in `dir`.
pub open spec fn files_in(ops: Seq<FsOp>, dir: Path, n: int) -> int
    decreases n,
{
    if n <= 0 {
        0
    } else {
        files_in(ops, dir, n - 1) + match ops[n - 1]@ {
            FsOpView::Create { path } => if path::parent_of(path) == dir {
                1int
            } else {
                0int
            },
            _ => 0int,
        }
    }
}

/// A number in decimal has digits only, stands for the number, and does not begin with a
/// nought unless it is nought.
pub proof fn lemma_decimal_stands_for(n: nat)
    ensures
        number(workload::decimal(n)) == n,
        forall|i: int|
            0 <= i < workload::decimal(n).len() ==> '0' <= #[trigger] workload::decimal(n)[i]
                <= '9',
        workload::decimal(n).len() > 0,
        n > 0 ==> workload::decimal(n)[0] != '0',
        workload::decimal(0) == seq!['0'],
    decreases n,
{
    let text = workload::decimal(n);
    reveal_with_fuel(number, 2);
    if n >= 10 {
        lemma_decimal_stands_for(n / 10);
        assert(text.drop_last() =~= workload::decimal(n / 10));
        assert(text.last() as int - '0' as int == n % 10);
        assert(text[0] == workload::decimal(n / 10)[0]);
        assert forall|i: int| 0 <= i < text.len() implies '0' <= #[trigger] text[i] <= '9' by {
            if i < text.len() - 1 {
                assert(text[i] == workload::decimal(n / 10)[i]);
            }
        }
    } else {
        assert(text.drop_last() =~= Seq::<char>::empty());
    }
}

proof fn lemma_numbered_differ(a: nat, b: nat)
    requires
        numbered(a) == numbered(b),
    ensures
        a == b,
{
    assert(numbered(a).skip(5) =~= workload::decimal(a));
    assert(numbered(b).skip(5) =~= workload::decimal(b));
    lemma_decimal_stands_for(a);
    lemma_decimal_stands_for(b);
}

proof fn lemma_texts(dir: nat, batch: nat, file: nat)
    ensures
        workload::dir_path(dir) == numbered(dir),
        workload::file_path(dir, batch, file) == numbered(dir) + seq!['/'] + file_text(batch, file),
        path::parent_of(numbered(dir) + seq!['/'] + file_text(batch, file)) == numbered(dir),
{
    reveal_strlit("dir_");
    reveal_strlit("b");
    reveal_strlit("_file_");
    assert(workload::dir_path(dir) =~= numbered(dir));
    assert(workload::file_name(batch, file) =~= file_text(batch, file));
    workload::lemma_plain_names(dir, batch, file);
    names::lemma_parent(numbered(dir), file_text(batch, file));
}

/// A batch has as many operations as asked for. The first makes the root, then the
/// directories by their numbers; all others make files, numbered from nought, each named
/// by its batch and number. The first file stands in the first directory, and each other
/// in the one after that of the file before it, or in the first again after the last.
pub proof fn lemma_files_take_turns(ops: Seq<FsOp>, batch: nat, batch_size: nat)
    requires
        batch_size > 0,
        workload::is_batch(ops, batch, batch_size),
    ensures
        ops.len() == batch_size,
        first_file(batch, batch_size) <= batch_size,
        forall|k: int|
            0 <= k < first_file(batch, batch_size) ==> (#[trigger] ops[k])@ == (FsOpView::Mkdir {
                path: if k == 0 {
                    seq!['/']
                } else {
                    numbered((k - 1) as nat)
                },
            }),
        forall|k: int|
            first_file(batch, batch_size) <= k < ops.len() ==> {
                let first = first_file(batch, batch_size) as int;
                exists|d: nat|
                    d < room(batch_size) && (#[trigger] ops[k])@ == (FsOpView::Create {
                        path: #[trigger] numbered(d) + seq!['/'] + file_text(
                            batch,
                            (k - first) as nat,
                        ),
                    })
            },
        forall|k: int, d: nat|
            first_file(batch, batch_size) == k < ops.len() && d < room(batch_size)
                && path::parent_of((#[trigger] ops[k])@->Create_path) == #[trigger] numbered(d)
                ==> d == 0,
        forall|j: int, k: int, d: nat, e: nat|
            first_file(batch, batch_size) <= j && k == j + 1 < ops.len() && path::parent_of(
                (#[trigger] ops[j])@->Create_path,
            ) == #[trigger] numbered(d) && path::parent_of((#[trigger] ops[k])@->Create_path)
                == #[trigger] numbered(e) ==> e == (if d + 1 == room(batch_size) {
                0
            } else {
                d + 1
            }),
{
    let first = first_file(batch, batch_size) as int;
    let dirs = room(batch_size);
    assert(path::root_path() =~= seq!['/']);
    assert forall|k: int| 0 <= k < first implies (#[trigger] ops[k])@ == (FsOpView::Mkdir {
        path: if k == 0 {
            seq!['/']
        } else {
            numbered((k - 1) as nat)
        },
    }) by {
        lemma_texts((k - 1) as nat, 0, 0);
    }
    assert forall|k: int| first <= k < ops.len() implies exists|d: nat|
        d < room(batch_size) && (#[trigger] ops[k])@ == (FsOpView::Create {
            path: #[trigger] numbered(d) + seq!['/'] + file_text(batch, (k - first) as nat),
        }) by {
        lemma_file_at(ops, batch, batch_size, k);
        let d = ((k - first) % (dirs as int)) as nat;
        assert(ops[k]@ == (FsOpView::Create {
            path: numbered(d) + seq!['/'] + file_text(batch, (k - first) as nat),
        }));
    }
    assert forall|k: int, d: nat|
        first_file(batch, batch_size) == k < ops.len() && d < room(batch_size)
            && path::parent_of((#[trigger] ops[k])@->Create_path)
            == #[trigger] numbered(d) implies d == 0 by {
        lemma_file_at(ops, batch, batch_size, k);
        vstd::arithmetic::div_mod::lemma_small_mod(0, dirs);
        lemma_numbered_differ(0, d);
    }
    assert forall|j: int, k: int, d: nat, e: nat|
        first_file(batch, batch_size) <= j && k == j + 1 < ops.len() && path::parent_of(
            (#[trigger] ops[j])@->Create_path,
        ) == #[trigger] numbered(d) && path::parent_of((#[trigger] ops[k])@->Create_path)
            == #[trigger] numbered(e) implies e == (if d + 1 == room(batch_size) {
        0
    } else {
        d + 1
    }) by {
        lemma_file_at(ops, batch, batch_size, j);
        lemma_file_at(ops, batch, batch_size, k);
        lemma_turn((j - first) as nat, dirs);
        lemma_numbered_differ(((j - first) % (dirs as int)) as nat, d);
        lemma_numbered_differ(((k - first) % (dirs as int)) as nat, e);
    }
}

proof fn lemma_turn(f: nat, dirs: nat)
    requires
        dirs > 0,
    ensures
        0 <= f % dirs < dirs,
        (f + 1) as nat % dirs == (if f % dirs + 1 == dirs {
            0
        } else {
            f % dirs + 1
        }),
        (f + 1) as nat / dirs == (if f % dirs + 1 == dirs {
            f / dirs + 1
        } else {
            f / dirs
        }),
{
    let n = dirs as int;
    let q = f as int / n;
    let r = f as int % n;
    vstd::arithmetic::div_mod::lemma_fundamental_div_mod(f as int, n);
    vstd::arithmetic::div_mod::lemma_mod_bound(f as int, n);
    if r + 1 == n {
        assert(f + 1 == (q + 1) * n + 0) by (nonlinear_arith)
            requires
                f == n * q + r,
                r + 1 == n,
        ;
        vstd::arithmetic::div_mod::lemma_fundamental_div_mod_converse(f as int + 1, n, q + 1, 0);
    } else {
        assert(f + 1 == q * n + (r + 1)) by (nonlinear_arith)
            requires
                f == n * q + r,
        ;
        vstd::arithmetic::div_mod::lemma_fundamental_div_mod_converse(
            f as int + 1,
            n,
            q,
            r + 1,
        );
    }
}

proof fn lemma_file_at(ops: Seq<FsOp>, batch: nat, batch_size: nat, k: int)
    requires
        batch_size > 0,
        workload::is_batch(ops, batch, batch_size),
        first_file(batch, batch_size) <= k < ops.len(),
    ensures
        ({
            let f = (k - first_file(batch, batch_size)) as nat;
            let d = f % room(batch_size);
            &&& d < room(batch_size)
            &&& ops[k]@ == (FsOpView::Create {
                path: numbered(d) + seq!['/'] + file_text(batch, f),
            })
            &&& path::parent_of(ops[k]@->Create_path) == numbered(d)
        }),
{
    let f = (k - first_file(batch, batch_size)) as nat;
    let d = f % room(batch_size);
    lemma_turn(f, room(batch_size));
    lemma_texts(d, batch, f);
    assert(ops[k]@ == workload::op_at(batch, batch_size, k as nat));
    if batch_size == 1 {
        assert(f == 0 || batch > 0);
        assert(d == 0);
    }
}

proof fn lemma_files_so_far(ops: Seq<FsOp>, batch: nat, batch_size: nat, dir: nat, n: int)
    requires
        batch_size > 0,
        workload::is_batch(ops, batch, batch_size),
        dir < room(batch_size),
        0 <= n <= ops.len(),
    ensures
        n <= first_file(batch, batch_size) ==> files_in(ops, numbered(dir), n) == 0,
        n >= first_file(batch, batch_size) ==> {
            let f = (n - first_file(batch, batch_size)) as nat;
            files_in(ops, numbered(dir), n) == f / room(batch_size) + (if dir < f % room(
                batch_size,
            ) {
                1int
            } else {
                0int
            })
        },
    decreases n,
{
    let first = first_file(batch, batch_size) as int;
    let dirs = room(batch_size);
    if n == first {
        vstd::arithmetic::div_mod::lemma_small_mod(0, dirs);
        vstd::arithmetic::div_mod::lemma_basic_div(0, dirs as int);
    }
    if n > 0 {
        lemma_files_so_far(ops, batch, batch_size, dir, n - 1);
        if n <= first {
            assert(ops[n - 1]@ == workload::op_at(batch, batch_size, (n - 1) as nat));
            assert(ops[n - 1]@ is Mkdir);
        } else {
            let f = (n - 1 - first) as nat;
            lemma_file_at(ops, batch, batch_size, n - 1);
            lemma_turn(f, dirs);
            if numbered(f % dirs) == numbered(dir) {
                lemma_numbered_differ(f % dirs, dir);
            }
        }
    }
}

/// In a batch, no directory gets more than one file more than another.
pub proof fn lemma_files_spread_evenly(
    ops: Seq<FsOp>,
    batch: nat,
    batch_size: nat,
    d: nat,
    e: nat,
)
    requires
        batch_size > 0,
        workload::is_batch(ops, batch, batch_size),
        d < room(batch_size),
        e < room(batch_size),
    ensures
        files_in(ops, numbered(d), ops.len() as int) <= files_in(
            ops,
            numbered(e),
            ops.len() as int,
        ) + 1,
{
    lemma_files_so_far(ops, batch, batch_size, d, ops.len() as int);
    lemma_files_so_far(ops, batch, batch_size, e, ops.len() as int);
}

} // verus!
