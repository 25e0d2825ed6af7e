//! A workload to try a cluster on: directories first, then files in them.

use crate::error::{BatchFault, Error, Result};
use crate::model::{FsOp, FsOpView, Key};
use crate::path;
use crate::path::Path;
use vstd::prelude::*;
use vstd::string::StringExecFns;

verus! {

/// The digit for a number below ten.
pub open spec fn digit(d: int) -> char {
    if d == 0 {
        '0'
    } else if d == 1 {
        '1'
    } else if d == 2 {
        '2'
    } else if d == 3 {
        '3'
    } else if d == 4 {
        '4'
    } else if d == 5 {
        '5'
    } else if d == 6 {
        '6'
    } else if d == 7 {
        '7'
    } else if d == 8 {
        '8'
    } else {
        '9'
    }
}

/// A number in decimal.
pub open spec fn decimal(n: nat) -> Seq<char>
    decreases n,
{
    if n < 10 {
        seq![digit(n as int)]
    } else {
        decimal(n / 10).push(digit((n % 10) as int))
    }
}

/// The name of a directory.
pub open spec fn dir_name(dir: nat) -> Seq<char> {
    "dir_"@ + decimal(dir)
}

/// The name of a file.
pub open spec fn file_name(batch: nat, file: nat) -> Seq<char> {
    "b"@ + decimal(batch) + "_file_"@ + decimal(file)
}

pub open spec fn dir_path(dir: nat) -> Path {
    seq!['/'] + dir_name(dir)
}

pub open spec fn file_path(dir: nat, batch: nat, file: nat) -> Path {
    dir_path(dir) + seq!['/'] + file_name(batch, file)
}

/// How many directories there are for batches of `batch_size`.
pub open spec fn dir_count(batch_size: nat) -> nat {
    if batch_size <= 1 {
        0
    } else if batch_size - 1 < 256 {
        (batch_size - 1) as nat
    } else {
        256
    }
}

/// The directory of a file.
pub open spec fn dir_of(batch_size: nat, file: nat) -> nat {
    let dirs = dir_count(batch_size);
    if dirs == 0 {
        0
    } else {
        file % dirs
    }
}

/// The operation at place `k` of a batch. The first batch makes the root and the
/// directories, and fills up with files; every other makes files only.
pub open spec fn op_at(batch: nat, batch_size: nat, k: nat) -> FsOpView {
    let dirs = dir_count(batch_size);
    if batch > 0 {
        FsOpView::Create { path: file_path(dir_of(batch_size, k), batch, k) }
    } else if k == 0 {
        FsOpView::Mkdir { path: path::root_path() }
    } else if k <= dirs {
        FsOpView::Mkdir { path: dir_path((k - 1) as nat) }
    } else {
        let file = (k - 1 - dirs) as nat;
        FsOpView::Create { path: file_path(dir_of(batch_size, file), 0, file) }
    }
}

/// `ops` are the operations of a batch.
pub open spec fn is_batch(ops: Seq<FsOp>, batch: nat, batch_size: nat) -> bool {
    &&& ops.len() == batch_size
    &&& forall|k: int| 0 <= k < ops.len() ==> (#[trigger] ops[k])@ == op_at(batch, batch_size, k as nat)
}

/// A name that may stand in a path: not empty, without slashes, and not led by a dot.
pub open spec fn plain(name: Seq<char>) -> bool {
    name.len() > 0 && name[0] != '.' && forall|i: int| 0 <= i < name.len() ==> name[i] != '/'
}

/// A number has a digit, and digits are no slashes or underscores.
pub proof fn lemma_decimal(n: nat)
    ensures
        decimal(n).len() > 0,
        forall|i: int|
            0 <= i < decimal(n).len() ==> #[trigger] decimal(n)[i] != '/' && decimal(n)[i] != '_',
    decreases n,
{
    if n >= 10 {
        lemma_decimal(n / 10);
    }
}

/// The names are plain.
pub proof fn lemma_plain_names(dir: nat, batch: nat, file: nat)
    ensures
        plain(dir_name(dir)),
        plain(file_name(batch, file)),
{
    reveal_strlit("dir_");
    reveal_strlit("b");
    reveal_strlit("_file_");
    lemma_decimal(dir);
    lemma_decimal(batch);
    lemma_decimal(file);
}

/// A path of plain names is well formed.
proof fn lemma_plain_path(front: Path, name: Seq<char>)
    requires
        front.len() == 0 || (path::valid_path(front) && front != path::root_path()),
        plain(name),
    ensures
        path::valid_path(front + seq!['/'] + name),
        front + seq!['/'] + name != path::root_path(),
{
    let p = front + seq!['/'] + name;
    let n = front.len() as int;
    assert(p.len() > 1);
    assert(path::root_path().len() == 1);
    assert(p[n] == '/');
    assert forall|i: int| n < i < p.len() implies p[i] != '/' by {
        assert(p[i] == name[i - n - 1]);
    }
    assert forall|i: int, j: int| #[trigger] path::segment_at(p, i, j) implies path::good_segment(
        p.subrange(i + 1, j),
    ) by {
        if i < n {
            assert(p[n] == '/');
            assert(j <= n);
            assert forall|m: int| i < m < j implies front[m] != '/' by {
                assert(front[m] == p[m]);
            }
            assert(p[i] == front[i]);
            if j < n {
                assert(p[j] == front[j]);
            }
            assert(path::segment_at(front, i, j));
            assert(front.subrange(i + 1, j) =~= p.subrange(i + 1, j));
        } else {
            assert(i == n);
            if j < p.len() {
                assert(p[j] != '/');
            }
            assert(p.subrange(i + 1, j) =~= name);
            assert(seq!['.'][0] == '.');
            assert(seq!['.', '.'][0] == '.');
        }
    }
    if n > 0 {
        assert(p[0] == front[0]);
    }
}

/// The paths are well formed.
pub proof fn lemma_paths(dir: nat, batch: nat, file: nat)
    ensures
        path::valid_path(dir_path(dir)),
        path::valid_path(file_path(dir, batch, file)),
{
    lemma_plain_names(dir, batch, file);
    let none: Path = Seq::empty();
    assert(none + seq!['/'] + dir_name(dir) =~= dir_path(dir));
    lemma_plain_path(none, dir_name(dir));
    lemma_plain_path(dir_path(dir), file_name(batch, file));
}

fn digit_text(d: usize) -> (r: &'static str)
    requires
        d < 10,
    ensures
        r@ == seq![digit(d as int)],
{
    proof {
        reveal_strlit("0");
        reveal_strlit("1");
        reveal_strlit("2");
        reveal_strlit("3");
        reveal_strlit("4");
        reveal_strlit("5");
        reveal_strlit("6");
        reveal_strlit("7");
        reveal_strlit("8");
        reveal_strlit("9");
    }
    let r = match d {
        0 => "0",
        1 => "1",
        2 => "2",
        3 => "3",
        4 => "4",
        5 => "5",
        6 => "6",
        7 => "7",
        8 => "8",
        _ => "9",
    };
    assert(r@ =~= seq![digit(d as int)]);
    r
}

/// Adds a number in decimal to `text`.
fn append_decimal(text: &mut String, n: usize)
    ensures
        final(text)@ == old(text)@ + decimal(n as nat),
    decreases n,
{
    if n >= 10 {
        append_decimal(text, n / 10);
    }
    let ghost before = text@;
    text.append(digit_text(n % 10));
    proof {
        if n >= 10 {
            assert(decimal(n as nat) == decimal((n / 10) as nat).push(digit((n % 10) as int)));
            assert(text@ =~= old(text)@ + decimal(n as nat));
        }
    }
}

fn dir_key(dir: usize) -> (r: Result<Key>)
    ensures
        match r {
            Ok(key) => key@ == dir_path(dir as nat),
            Err(_) => false,
        },
{
    let text = dir_text(dir);
    proof {
        lemma_paths(dir as nat, 0, 0);
    }
    Key::new(text)
}

fn dir_text(dir: usize) -> (r: String)
    ensures
        r@ == dir_path(dir as nat),
{
    proof {
        reveal_strlit("/dir_");
        reveal_strlit("dir_");
    }
    let mut text: String = "/dir_".to_owned();
    append_decimal(&mut text, dir);
    assert(text@ =~= dir_path(dir as nat));
    text
}

fn file_key(dir: usize, batch: usize, file: usize) -> (r: Result<Key>)
    ensures
        match r {
            Ok(key) => key@ == file_path(dir as nat, batch as nat, file as nat),
            Err(_) => false,
        },
{
    proof {
        reveal_strlit("/b");
        reveal_strlit("b");
    }
    let mut text = dir_text(dir);
    text.append("/b");
    append_decimal(&mut text, batch);
    text.append("_file_");
    append_decimal(&mut text, file);
    proof {
        lemma_paths(dir as nat, batch as nat, file as nat);
        assert(text@ =~= file_path(dir as nat, batch as nat, file as nat));
    }
    Key::new(text)
}

fn dir_for(file: usize, dirs: usize, batch_size: usize) -> (r: usize)
    requires
        dirs == dir_count(batch_size as nat),
    ensures
        r == dir_of(batch_size as nat, file as nat),
{
    if dirs == 0 {
        0
    } else {
        file % dirs
    }
}

fn first_batch(batch_size: usize, dirs: usize) -> (r: Result<Vec<FsOp>>)
    requires
        batch_size > 0,
        dirs == dir_count(batch_size as nat),
    ensures
        match r {
            Ok(ops) => is_batch(ops@, 0, batch_size as nat),
            Err(_) => false,
        },
{
    let mut ops: Vec<FsOp> = Vec::new();
    ops.push(FsOp::Mkdir { path: Key::root() });
    let mut dir: usize = 0;
    while dir < dirs
        invariant
            dir <= dirs,
            dirs == dir_count(batch_size as nat),
            ops.len() == dir + 1,
            forall|k: int|
                0 <= k < ops.len() ==> (#[trigger] ops@[k])@ == op_at(
                    0,
                    batch_size as nat,
                    k as nat,
                ),
        decreases dirs - dir,
    {
        ops.push(FsOp::Mkdir { path: dir_key(dir)? });
        dir += 1;
    }
    let mut file: usize = 0;
    while ops.len() < batch_size
        invariant
            dirs == dir_count(batch_size as nat),
            ops.len() == file + 1 + dirs,
            ops.len() <= batch_size,
            forall|k: int|
                0 <= k < ops.len() ==> (#[trigger] ops@[k])@ == op_at(
                    0,
                    batch_size as nat,
                    k as nat,
                ),
        decreases batch_size - ops.len(),
    {
        let dir = dir_for(file, dirs, batch_size);
        ops.push(FsOp::Create { path: file_key(dir, 0, file)? });
        file += 1;
    }
    Ok(ops)
}

fn create_file_batch(batch: usize, batch_size: usize, dirs: usize) -> (r: Result<Vec<FsOp>>)
    requires
        batch > 0,
        dirs == dir_count(batch_size as nat),
    ensures
        match r {
            Ok(ops) => is_batch(ops@, batch as nat, batch_size as nat),
            Err(_) => false,
        },
{
    let mut ops: Vec<FsOp> = Vec::new();
    let mut file: usize = 0;
    while file < batch_size
        invariant
            batch > 0,
            file <= batch_size,
            dirs == dir_count(batch_size as nat),
            ops.len() == file,
            forall|k: int|
                0 <= k < ops.len() ==> (#[trigger] ops@[k])@ == op_at(
                    batch as nat,
                    batch_size as nat,
                    k as nat,
                ),
        decreases batch_size - file,
    {
        let dir = dir_for(file, dirs, batch_size);
        ops.push(FsOp::Create { path: file_key(dir, batch, file)? });
        file += 1;
    }
    Ok(ops)
}

/// Batches of operations: directories first, then files in them.
pub fn metadata_workload(batch_count: usize, batch_size: usize) -> (r: Result<Vec<Vec<FsOp>>>)
    ensures
        match r {
            Ok(batches) => {
                &&& batch_count == 0 || batch_size > 0
                &&& batches@.len() == batch_count
                &&& forall|b: int|
                    0 <= b < batch_count ==> is_batch(
                        (#[trigger] batches@[b])@,
                        b as nat,
                        batch_size as nat,
                    )
            },
            Err(error) => {
                &&& batch_count > 0 && batch_size == 0
                &&& error == Error::InvalidBatch(BatchFault::NoBatchSize)
            },
        },
{
    if batch_count == 0 {
        return Ok(Vec::new());
    }
    if batch_size == 0 {
        return Err(Error::InvalidBatch(BatchFault::NoBatchSize));
    }
    let dirs: usize = if batch_size == 1 {
        0
    } else if batch_size - 1 < 256 {
        batch_size - 1
    } else {
        256
    };
    let mut batches: Vec<Vec<FsOp>> = Vec::new();
    batches.push(first_batch(batch_size, dirs)?);
    let mut batch: usize = 1;
    while batch < batch_count
        invariant
            1 <= batch <= batch_count,
            dirs == dir_count(batch_size as nat),
            batches.len() == batch,
            forall|b: int|
                0 <= b < batch ==> is_batch(
                    (#[trigger] batches@[b])@,
                    b as nat,
                    batch_size as nat,
                ),
        decreases batch_count - batch,
    {
        batches.push(create_file_batch(batch, batch_size, dirs)?);
        batch += 1;
    }
    Ok(batches)
}

} // verus!
