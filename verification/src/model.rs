//! The values that transactions are made of.

use crate::collections::{OrdSet, SortKey};
use crate::error::{Error, Result};
use crate::path;
use crate::path::Path;
use vstd::prelude::*;
use vstd::utf8::*;

pub mod profile;

pub use profile::{
    SchedulerProfileCounters, SchedulerProfileRecord, SchedulerProfileScheduler,
    SchedulerProfileTimings, WorkerStageStats,
};

verus! {

pub type TxId = u64;

pub type BatchId = u64;

pub type ShardId = u64;

/// A well-formed absolute path: the key under which an inode is stored.
#[derive(Debug, PartialEq, Eq, PartialOrd, Ord, Hash)]
pub struct Key(String);

impl View for Key {
    type V = Path;

    closed spec fn view(&self) -> Path {
        self.0@
    }
}

/// The characters of `s`.
pub(crate) fn chars_of(s: &str) -> (r: Vec<char>)
    ensures
        r@ == s@,
{
    let mut r: Vec<char> = Vec::new();
    let mut it = s.chars();
    loop
        invariant_except_break
            r@ + vstd::std_specs::iter::IteratorSpec::remaining(&it) == s@,
        invariant
            vstd::std_specs::iter::IteratorSpec::obeys_prophetic_iter_laws(&it),
            vstd::std_specs::iter::IteratorSpec::decrease(&it) is Some,
        ensures
            r@ == s@,
        decreases vstd::std_specs::iter::IteratorSpec::decrease(&it)->0,
    {
        let ghost rest = vstd::std_specs::iter::IteratorSpec::remaining(&it);
        match it.next() {
            Some(c) => {
                r.push(c);
                assert(r@ + vstd::std_specs::iter::IteratorSpec::remaining(&it) =~= r@.drop_last() + rest);
            },
            None => {
                assert(r@ + rest =~= r@);
                break;
            },
        }
    }
    r
}

impl Key {
    #[verifier::type_invariant]
    pub closed spec fn inv(self) -> bool {
        path::valid_path(self.0@)
    }

    pub fn new(path: String) -> (r: Result<Self>)
        ensures
            match r {
                Ok(key) => path::valid_path(path@) && key@ == path@,
                Err(Error::InvalidPath(text)) => !path::valid_path(path@) && text@ == path@,
                Err(_) => false,
            },
    {
        if is_valid_path(path.as_str()) {
            Ok(Key(path))
        } else {
            Err(Error::InvalidPath(path))
        }
    }

    pub fn root() -> (r: Self)
        ensures
            r@ == path::root_path(),
    {
        proof {
            reveal_strlit("/");
        }
        let text: String = "/".to_owned();
        assert(text@ =~= path::root_path());
        Key(text)
    }

    pub fn as_str(&self) -> (r: &str)
        ensures
            r@ == self@,
            path::valid_path(self@),
    {
        proof {
            use_type_invariant(&*self);
        }
        self.0.as_str()
    }

    pub fn is_root(&self) -> (r: bool)
        ensures
            r == (self@ == path::root_path()),
            path::valid_path(self@),
    {
        proof {
            use_type_invariant(&*self);
        }
        let bytes = self.0.as_str().as_bytes();
        proof {
            lemma_root_bytes(self@);
        }
        bytes.len() == 1
    }
}

impl Key {
    /// The path of the directory that holds this path; the root has none.
    pub fn parent(&self) -> (r: Result<Self>)
        ensures
            match r {
                Ok(key) => self@ != path::root_path() && key@ == path::parent_of(self@),
                Err(Error::InvalidPath(text)) => self@ == path::root_path() && text@
                    == "root has no parent"@,
                Err(_) => false,
            },
    {
        if self.is_root() {
            return Err(Error::InvalidPath("root has no parent".to_owned()));
        }
        let p = chars_of(self.0.as_str());
        proof {
            path::lemma_last_segment(self@);
            path::lemma_parent_valid(self@);
        }
        let mut i: usize = p.len();
        while i > 0 && p[i - 1] != '/'
            invariant
                p@ == self@,
                i <= p.len(),
                forall|m: int| i <= m < p.len() ==> p@[m] != '/',
            decreases i,
        {
            i -= 1;
        }
        let ghost n = path::last_slash(self@);
        assert(n < i) by {
            assert(p@[n] == '/');
        }
        let idx: usize = i - 1;
        assert(path::last_slash_at(self@, idx as int));
        proof {
            path::lemma_last_slash_unique(self@, idx as int);
        }
        if idx == 0 {
            Ok(Key::root())
        } else {
            let text = self.0.as_str().substring_char(0, idx).to_owned();
            Ok(Key(text))
        }
    }

    /// Whether the two keys are the same path.
    pub fn equals(&self, other: &Key) -> (r: bool)
        ensures
            r == (self@ == other@),
    {
        self.0 == other.0
    }

    /// The text of this key.
    pub fn to_text(&self) -> (r: String)
        ensures
            r@ == self@,
            path::valid_path(self@),
    {
        proof {
            use_type_invariant(&*self);
        }
        self.0.clone()
    }

    /// Every key is a well-formed path.
    pub fn well_formed(&self)
        ensures
            path::valid_path(self@),
    {
        proof {
            use_type_invariant(&*self);
        }
    }
}

impl Clone for Key {
    fn clone(&self) -> (r: Self)
        ensures
            r@ == self@,
    {
        proof {
            use_type_invariant(&*self);
        }
        Key(self.0.clone())
    }
}

/// `a` comes before `b` in the order of the code points, which is also the
/// order of the UTF-8 bytes.
pub open spec fn text_before(a: Seq<char>, b: Seq<char>) -> bool
    decreases a.len(),
{
    if b.len() == 0 {
        false
    } else if a.len() == 0 {
        true
    } else if a[0] != b[0] {
        a[0] < b[0]
    } else {
        text_before(a.drop_first(), b.drop_first())
    }
}

proof fn lemma_text_irreflexive(a: Seq<char>)
    ensures
        !text_before(a, a),
    decreases a.len(),
{
    if a.len() > 0 {
        lemma_text_irreflexive(a.drop_first());
    }
}

proof fn lemma_text_transitive(a: Seq<char>, b: Seq<char>, c: Seq<char>)
    requires
        text_before(a, b),
        text_before(b, c),
    ensures
        text_before(a, c),
    decreases a.len(),
{
    if a.len() > 0 && a[0] == b[0] && b[0] == c[0] {
        lemma_text_transitive(a.drop_first(), b.drop_first(), c.drop_first());
    }
}

proof fn lemma_text_total(a: Seq<char>, b: Seq<char>)
    ensures
        a == b || text_before(a, b) || text_before(b, a),
    decreases a.len(),
{
    if a.len() > 0 && b.len() > 0 && a[0] == b[0] {
        lemma_text_total(a.drop_first(), b.drop_first());
        if a.drop_first() == b.drop_first() {
            assert(a =~= seq![a[0]] + a.drop_first());
            assert(b =~= seq![b[0]] + b.drop_first());
        }
    } else if a.len() == 0 && b.len() == 0 {
        assert(a =~= b);
    }
}

/// Whether `a` comes before `b`.
fn is_text_before(a: &str, b: &str) -> (r: bool)
    ensures
        r == text_before(a@, b@),
{
    let mut left = a.chars();
    let mut right = b.chars();
    loop
        invariant
            vstd::std_specs::iter::IteratorSpec::decrease(&left) is Some,
            text_before(a@, b@) == text_before(
                vstd::std_specs::iter::IteratorSpec::remaining(&left),
                vstd::std_specs::iter::IteratorSpec::remaining(&right),
            ),
        decreases vstd::std_specs::iter::IteratorSpec::decrease(&left)->0,
    {
        let ghost l = vstd::std_specs::iter::IteratorSpec::remaining(&left);
        let ghost r = vstd::std_specs::iter::IteratorSpec::remaining(&right);
        let x = left.next();
        let y = right.next();
        match (x, y) {
            (_, None) => {
                return false;
            },
            (None, Some(_)) => {
                return true;
            },
            (Some(c), Some(d)) => {
                if c != d {
                    return c < d;
                }
                assert(vstd::std_specs::iter::IteratorSpec::remaining(&left) =~= l.drop_first());
                assert(vstd::std_specs::iter::IteratorSpec::remaining(&right) =~= r.drop_first());
            },
        }
    }
}

impl SortKey for Key {
    open spec fn before(a: Path, b: Path) -> bool {
        text_before(a, b)
    }

    proof fn before_irreflexive(a: Path) {
        lemma_text_irreflexive(a);
    }

    proof fn before_transitive(a: Path, b: Path, c: Path) {
        lemma_text_transitive(a, b, c);
    }

    proof fn before_total(a: Path, b: Path) {
        lemma_text_total(a, b);
    }

    fn is_before(&self, other: &Key) -> (r: bool) {
        is_text_before(self.0.as_str(), other.0.as_str())
    }

    fn same_key(&self, other: &Key) -> (r: bool) {
        self.equals(other)
    }

    fn duplicate(&self) -> (r: Key) {
        self.clone()
    }
}

/// A text takes at least one byte per character.
proof fn lemma_encoding_len(p: Seq<char>)
    ensures
        encode_utf8(p).len() >= p.len(),
    decreases p.len(),
{
    if p.len() > 0 {
        lemma_encoding_len(p.drop_first());
    }
}

/// The root is the only well-formed path of one byte.
proof fn lemma_root_bytes(p: Path)
    requires
        path::valid_path(p),
    ensures
        p == path::root_path() <==> encode_utf8(p).len() == 1,
{
    lemma_encoding_len(p);
    if p == path::root_path() {
        reveal_with_fuel(encode_utf8, 2);
        assert(p.drop_first().len() == 0);
    }
}

/// Whether what stands between the slash at `start` and `end` is a good segment.
fn is_good_segment(p: &Vec<char>, start: usize, end: usize) -> (r: bool)
    requires
        start < end <= p.len(),
    ensures
        r == path::good_segment(p@.subrange(start + 1, end as int)),
{
    let ghost segment = p@.subrange(start + 1, end as int);
    let len: usize = end - start - 1;
    assert(segment.len() == len);
    proof {
        if segment == seq!['.'] {
            assert(segment.len() == 1 && segment[0] == '.');
        }
        if segment == seq!['.', '.'] {
            assert(segment.len() == 2 && segment[0] == '.' && segment[1] == '.');
        }
    }
    if len == 1 && p[start + 1] == '.' {
        assert(segment =~= seq!['.']);
    }
    if len == 2 && p[start + 1] == '.' && p[start + 2] == '.' {
        assert(segment =~= seq!['.', '.']);
    }
    len != 0 && !(len == 1 && p[start + 1] == '.') && !(len == 2 && p[start + 1] == '.' && p[start
        + 2] == '.')
}

/// Whether `text` is a well-formed absolute path.
fn is_valid_path(text: &str) -> (r: bool)
    ensures
        r == path::valid_path(text@),
{
    let p = chars_of(text);
    let n = p.len();
    if n == 0 || p[0] != '/' {
        return false;
    }
    if n == 1 {
        assert(p@ =~= path::root_path());
        return true;
    }
    let mut start: usize = 0;
    let mut i: usize = 1;
    while i < n
        invariant
            n == p.len(),
            n > 1,
            p@ == text@,
            p@[0] == '/',
            start < i <= n,
            p@[start as int] == '/',
            forall|m: int| start < m < i ==> p@[m] != '/',
            forall|a: int, b: int|
                a < start && #[trigger] path::segment_at(p@, a, b) ==> path::good_segment(
                    p@.subrange(a + 1, b),
                ),
        decreases n - i,
    {
        if p[i] == '/' {
            assert(path::segment_at(p@, start as int, i as int));
            if !is_good_segment(&p, start, i) {
                return false;
            }
            assert forall|a: int, b: int|
                a < i && #[trigger] path::segment_at(p@, a, b) implies path::good_segment(
                p@.subrange(a + 1, b),
            ) by {
                if a == start {
                    if b < i {
                        assert(p@[b] != '/');
                    } else if i < b {
                        assert(p@[i as int] == '/');
                    }
                } else if a > start {
                    assert(p@[a] != '/');
                }
            }
            start = i;
        }
        i += 1;
    }
    assert(path::segment_at(p@, start as int, n as int));
    assert forall|a: int, b: int| #[trigger] path::segment_at(p@, a, b) && a >= start implies a
        == start && b == n by {
        if a > start {
            assert(p@[a] != '/');
        }
        if b < n {
            assert(p@[b] != '/');
        }
    }
    is_good_segment(&p, start, n)
}

/// The parent of `path`, as [`Key::parent`] gives it.
pub fn parent_key(path: &Key) -> (r: Result<Key>)
    ensures
        match r {
            Ok(key) => path@ != path::root_path() && key@ == path::parent_of(path@),
            Err(Error::InvalidPath(text)) => path@ == path::root_path() && text@
                == "root has no parent"@,
            Err(_) => false,
        },
{
    path.parent()
}

#[derive(Clone, Copy, Debug, PartialEq, Eq, Structural)]
pub enum NodeKind {
    File,
    Directory,
}

/// What is stored under a key. A directory counts the entries directly in it.
#[derive(Clone, Copy, Debug, PartialEq, Eq, Structural)]
pub struct Inode {
    pub kind: NodeKind,
    pub child_count: u64,
}

impl Inode {
    pub fn file() -> (r: Self)
        ensures
            r == (Inode { kind: NodeKind::File, child_count: 0 }),
    {
        Inode { kind: NodeKind::File, child_count: 0 }
    }

    pub fn directory(child_count: u64) -> (r: Self)
        ensures
            r == (Inode { kind: NodeKind::Directory, child_count }),
    {
        Inode { kind: NodeKind::Directory, child_count }
    }
}

/// A file system operation.
#[derive(Debug, PartialEq, Eq)]
pub enum FsOp {
    Create { path: Key },
    Mkdir { path: Key },
    Unlink { path: Key },
    Rmdir { path: Key },
    Rename { src: Key, dst: Key },
    Stat { path: Key },
}

/// A file system operation over mathematical paths.
pub enum FsOpView {
    Create { path: Path },
    Mkdir { path: Path },
    Unlink { path: Path },
    Rmdir { path: Path },
    Rename { src: Path, dst: Path },
    Stat { path: Path },
}

impl View for FsOp {
    type V = FsOpView;

    open spec fn view(&self) -> FsOpView {
        match self {
            FsOp::Create { path } => FsOpView::Create { path: path@ },
            FsOp::Mkdir { path } => FsOpView::Mkdir { path: path@ },
            FsOp::Unlink { path } => FsOpView::Unlink { path: path@ },
            FsOp::Rmdir { path } => FsOpView::Rmdir { path: path@ },
            FsOp::Rename { src, dst } => FsOpView::Rename { src: src@, dst: dst@ },
            FsOp::Stat { path } => FsOpView::Stat { path: path@ },
        }
    }
}

impl FsOpView {
    /// Every path of the operation is well formed.
    pub open spec fn valid(self) -> bool {
        match self {
            FsOpView::Create { path } => path::valid_path(path),
            FsOpView::Mkdir { path } => path::valid_path(path),
            FsOpView::Unlink { path } => path::valid_path(path),
            FsOpView::Rmdir { path } => path::valid_path(path),
            FsOpView::Rename { src, dst } => path::valid_path(src) && path::valid_path(dst),
            FsOpView::Stat { path } => path::valid_path(path),
        }
    }
}

impl FsOp {
    /// Every operation names well-formed paths only.
    pub fn well_formed(&self)
        ensures
            self@.valid(),
    {
        match self {
            FsOp::Create { path } => path.well_formed(),
            FsOp::Mkdir { path } => path.well_formed(),
            FsOp::Unlink { path } => path.well_formed(),
            FsOp::Rmdir { path } => path.well_formed(),
            FsOp::Rename { src, dst } => {
                src.well_formed();
                dst.well_formed();
            },
            FsOp::Stat { path } => path.well_formed(),
        }
    }
}

impl Clone for FsOp {
    fn clone(&self) -> (r: Self)
        ensures
            r@ == self@,
    {
        match self {
            FsOp::Create { path } => FsOp::Create { path: path.clone() },
            FsOp::Mkdir { path } => FsOp::Mkdir { path: path.clone() },
            FsOp::Unlink { path } => FsOp::Unlink { path: path.clone() },
            FsOp::Rmdir { path } => FsOp::Rmdir { path: path.clone() },
            FsOp::Rename { src, dst } => FsOp::Rename { src: src.clone(), dst: dst.clone() },
            FsOp::Stat { path } => FsOp::Stat { path: path.clone() },
        }
    }
}

/// A transaction at its place in a batch, with the keys it reads and writes.
#[derive(Debug, PartialEq, Eq)]
pub struct OrderedTx {
    pub tx_id: TxId,
    pub batch_index: u32,
    pub op: FsOp,
    pub read_set: OrdSet<Key>,
    pub write_set: OrdSet<Key>,
}

#[verifier::ext_equal]
pub struct OrderedTxView {
    pub tx_id: TxId,
    pub batch_index: u32,
    pub op: FsOpView,
    pub read_set: Set<Path>,
    pub write_set: Set<Path>,
}

impl View for OrderedTx {
    type V = OrderedTxView;

    open spec fn view(&self) -> OrderedTxView {
        OrderedTxView {
            tx_id: self.tx_id,
            batch_index: self.batch_index,
            op: self.op@,
            read_set: self.read_set@,
            write_set: self.write_set@,
        }
    }
}

impl Clone for OrderedTx {
    fn clone(&self) -> (r: Self)
        ensures
            r@ == self@,
    {
        OrderedTx {
            tx_id: self.tx_id,
            batch_index: self.batch_index,
            op: self.op.clone(),
            read_set: self.read_set.clone(),
            write_set: self.write_set.clone(),
        }
    }
}

/// The views of a run of transactions.
pub open spec fn tx_views(txs: Seq<OrderedTx>) -> Seq<OrderedTxView> {
    txs.map_values(|tx: OrderedTx| tx@)
}

/// A run of transactions that is scheduled together.
#[derive(Debug, PartialEq, Eq)]
pub struct Batch {
    pub batch_id: BatchId,
    pub txs: Vec<OrderedTx>,
}

#[verifier::ext_equal]
pub struct BatchView {
    pub batch_id: BatchId,
    pub txs: Seq<OrderedTxView>,
}

impl View for Batch {
    type V = BatchView;

    open spec fn view(&self) -> BatchView {
        BatchView { batch_id: self.batch_id, txs: tx_views(self.txs@) }
    }
}

/// A copy of `txs`.
pub fn clone_txs(txs: &Vec<OrderedTx>) -> (r: Vec<OrderedTx>)
    ensures
        tx_views(r@) == tx_views(txs@),
{
    let mut r: Vec<OrderedTx> = Vec::new();
    let mut i: usize = 0;
    while i < txs.len()
        invariant
            i <= txs.len(),
            r.len() == i,
            forall|j: int| 0 <= j < i ==> (#[trigger] r@[j])@ == txs@[j]@,
        decreases txs.len() - i,
    {
        r.push(txs[i].clone());
        i += 1;
    }
    assert(tx_views(r@) =~= tx_views(txs@));
    r
}

impl Clone for Batch {
    fn clone(&self) -> (r: Self)
        ensures
            r@ == self@,
    {
        Batch { batch_id: self.batch_id, txs: clone_txs(&self.txs) }
    }
}

/// How a transaction ended.
#[derive(Clone, Copy, Debug, PartialEq, Eq, PartialOrd, Ord, Structural)]
pub enum TxResult {
    Success,
    NotFound,
    AlreadyExists,
    NotDirectory,
    DirectoryNotEmpty,
    Invalid,
}

/// What a read of one key found.
#[derive(Clone, Copy, Debug, PartialEq, Eq, Structural)]
pub enum ReadValue {
    Present(Inode),
    Missing,
}

/// The part of an execution that a read serves.
#[derive(Clone, Copy, Debug, PartialEq, Eq, PartialOrd, Ord, Structural)]
pub enum ReadPhase {
    Calvin,
    SccEffect,
    SccCondition,
    AriaFallback,
}

/// Whether a shard could serve a read.
#[derive(Clone, Copy, Debug, PartialEq, Eq, Structural)]
pub enum LocalReadStatus {
    Success,
    SpeculationFailed,
}

/// A change to one key.
#[derive(Debug, PartialEq, Eq)]
pub enum WriteOp {
    Put { key: Key, value: Inode },
    Delete { key: Key },
}

pub enum WriteOpView {
    Put { key: Path, value: Inode },
    Delete { key: Path },
}

impl View for WriteOp {
    type V = WriteOpView;

    open spec fn view(&self) -> WriteOpView {
        match self {
            WriteOp::Put { key, value } => WriteOpView::Put { key: key@, value: *value },
            WriteOp::Delete { key } => WriteOpView::Delete { key: key@ },
        }
    }
}

impl WriteOpView {
    /// The key that is changed.
    pub open spec fn target(self) -> Path {
        match self {
            WriteOpView::Put { key, .. } => key,
            WriteOpView::Delete { key } => key,
        }
    }
}

impl WriteOp {
    pub fn key(&self) -> (r: &Key)
        ensures
            r@ == self@.target(),
    {
        match self {
            WriteOp::Put { key, .. } => key,
            WriteOp::Delete { key } => key,
        }
    }
}

impl Clone for WriteOp {
    fn clone(&self) -> (r: Self)
        ensures
            r@ == self@,
    {
        match self {
            WriteOp::Put { key, value } => WriteOp::Put { key: key.clone(), value: *value },
            WriteOp::Delete { key } => WriteOp::Delete { key: key.clone() },
        }
    }
}

/// The views of a run of writes.
pub open spec fn write_views(writes: Seq<WriteOp>) -> Seq<WriteOpView> {
    writes.map_values(|w: WriteOp| w@)
}

/// The outcome of a transaction: its result and the writes it makes, in order.
#[derive(Debug, PartialEq, Eq)]
pub struct TxExecutionOutput {
    pub result: TxResult,
    pub writes: Vec<WriteOp>,
}

#[verifier::ext_equal]
pub struct TxOutputView {
    pub result: TxResult,
    pub writes: Seq<WriteOpView>,
}

impl View for TxExecutionOutput {
    type V = TxOutputView;

    open spec fn view(&self) -> TxOutputView {
        TxOutputView { result: self.result, writes: write_views(self.writes@) }
    }
}

impl Clone for TxExecutionOutput {
    fn clone(&self) -> (r: Self)
        ensures
            r@ == self@,
    {
        let mut writes: Vec<WriteOp> = Vec::new();
        let mut i: usize = 0;
        while i < self.writes.len()
            invariant
                i <= self.writes.len(),
                writes.len() == i,
                forall|j: int| 0 <= j < i ==> (#[trigger] writes@[j])@ == self.writes@[j]@,
            decreases self.writes.len() - i,
        {
            writes.push(self.writes[i].clone());
            i += 1;
        }
        assert(write_views(writes@) =~= write_views(self.writes@));
        TxExecutionOutput { result: self.result, writes }
    }
}

/// The result of a transaction, as the shard that answers for it reports it.
#[derive(Clone, Copy, Debug, PartialEq, Eq, Structural)]
pub struct TxResultRecord {
    pub tx_id: TxId,
    pub shard_id: ShardId,
    pub result: TxResult,
}

/// The order in which a batch took effect under speculation: first the
/// successes, then the transactions that were run again.
#[derive(Debug, PartialEq, Eq)]
pub struct SccReorderRecord {
    pub batch_id: BatchId,
    pub speculative_success_indices: Vec<usize>,
    pub fallback_indices: Vec<usize>,
}

#[verifier::ext_equal]
pub struct ReorderView {
    pub batch_id: BatchId,
    pub successes: Seq<usize>,
    pub fallbacks: Seq<usize>,
}

impl View for SccReorderRecord {
    type V = ReorderView;

    open spec fn view(&self) -> ReorderView {
        ReorderView {
            batch_id: self.batch_id,
            successes: self.speculative_success_indices@,
            fallbacks: self.fallback_indices@,
        }
    }
}

/// A copy of `writes`.
pub fn clone_writes(writes: &Vec<WriteOp>) -> (r: Vec<WriteOp>)
    ensures
        write_views(r@) == write_views(writes@),
{
    let mut r: Vec<WriteOp> = Vec::new();
    let mut i: usize = 0;
    while i < writes.len()
        invariant
            i <= writes.len(),
            r.len() == i,
            forall|j: int| 0 <= j < i ==> (#[trigger] r@[j])@ == writes@[j]@,
        decreases writes.len() - i,
    {
        r.push(writes[i].clone());
        i += 1;
    }
    assert(write_views(r@) =~= write_views(writes@));
    r
}

/// A copy of `indices`.
pub fn clone_indices(indices: &Vec<usize>) -> (r: Vec<usize>)
    ensures
        r@ == indices@,
{
    let mut r: Vec<usize> = Vec::new();
    let mut i: usize = 0;
    while i < indices.len()
        invariant
            i <= indices.len(),
            r@ == indices@.take(i as int),
        decreases indices.len() - i,
    {
        r.push(indices[i]);
        i += 1;
        assert(indices@.take(i as int) =~= indices@.take(i - 1).push(indices@[i - 1]));
    }
    assert(r@ =~= indices@);
    r
}

impl Clone for SccReorderRecord {
    fn clone(&self) -> (r: Self)
        ensures
            r@ == self@,
    {
        SccReorderRecord {
            batch_id: self.batch_id,
            speculative_success_indices: clone_indices(&self.speculative_success_indices),
            fallback_indices: clone_indices(&self.fallback_indices),
        }
    }
}

} // verus!
