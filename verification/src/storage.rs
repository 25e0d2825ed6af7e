//! The inodes of a shard, kept in an in-memory redb database.
//!
//! A key is stored as its text, an inode as its bincode encoding: the kind as four
//! bytes and the count as eight, both little-endian.

use crate::collections;
use crate::collections::{OrdMap, OrdSet};
use crate::error::{Error, Result};
use crate::model;
use crate::model::{Inode, Key, NodeKind, ReadValue, WriteOp};
use crate::path;
use crate::path::Path;
use crate::scc::delta;
use crate::scc::delta::{changed_count, DeltaOp, TxDelta};
use crate::state;
use crate::state::State;
use redb::backends::InMemoryBackend;
use redb::{ReadableDatabase, ReadableTable, TableDefinition};
use vstd::bytes::*;
use vstd::prelude::*;

verus! {

/// The contents of the inode table: bytes by text.
pub type Contents = Map<Seq<char>, Seq<u8>>;

/// The contents of an empty table.
pub open spec fn no_contents() -> Contents {
    Map::empty()
}

#[verifier::external_type_specification]
#[verifier::external_body]
pub struct ExDatabase(redb::Database);

#[verifier::external_type_specification]
#[verifier::external_body]
pub struct ExWriteTransaction(redb::WriteTransaction);

#[verifier::external_type_specification]
#[verifier::external_body]
pub struct ExReadTransaction(redb::ReadTransaction);

#[verifier::external_type_specification]
#[verifier::external_body]
pub struct ExDatabaseError(redb::DatabaseError);

#[verifier::external_type_specification]
#[verifier::external_body]
pub struct ExTableError(redb::TableError);

#[verifier::external_type_specification]
#[verifier::external_body]
pub struct ExTransactionError(redb::TransactionError);

#[verifier::external_type_specification]
#[verifier::external_body]
pub struct ExCommitError(redb::CommitError);

#[verifier::external_type_specification]
#[verifier::external_body]
pub struct ExStorageError(redb::StorageError);

#[verifier::external_type_specification]
#[verifier::external_body]
pub struct ExBincodeErrorKind(bincode::ErrorKind);

/// What is committed to the inode table of a database.
pub uninterp spec fn stored(db: redb::Database) -> Map<Seq<char>, Seq<u8>>;

/// A write transaction of the database has not ended yet.
pub uninterp spec fn writing(db: redb::Database) -> bool;

/// What the inode table holds as a write transaction sees it.
pub uninterp spec fn staged(txn: redb::WriteTransaction) -> Map<Seq<char>, Seq<u8>>;

/// The write transaction was begun on this database, and nothing was committed since.
pub uninterp spec fn opened_on(txn: redb::WriteTransaction, db: redb::Database) -> bool;

/// What the inode table holds as a read transaction sees it.
pub uninterp spec fn snapshot(read: redb::ReadTransaction) -> Map<Seq<char>, Seq<u8>>;

/// Why an operation on the inode table failed.
pub enum TableOpError {
    Table(redb::TableError),
    Storage(redb::StorageError),
}

/// `redb::Database::builder` and `Builder::create_with_backend` on a new
/// `InMemoryBackend`: a database in memory that holds nothing.
#[verifier::external_body]
fn create_database() -> (r: std::result::Result<redb::Database, redb::DatabaseError>)
    ensures
        match r {
            Ok(db) => stored(db) == no_contents() && !writing(db),
            Err(_) => true,
        },
{
    redb::Database::builder().create_with_backend(InMemoryBackend::new())
}

/// `redb::Database::begin_write`: a transaction that sees what is committed. It waits
/// for another write transaction to end, so there must be none.
#[verifier::external_body]
fn begin_write(db: &mut redb::Database) -> (r: std::result::Result<
    redb::WriteTransaction,
    redb::TransactionError,
>)
    requires
        !writing(*old(db)),
    ensures
        stored(*final(db)) == stored(*old(db)),
        match r {
            Ok(txn) => {
                &&& writing(*final(db))
                &&& opened_on(txn, *final(db))
                &&& staged(txn) == stored(*old(db))
            },
            Err(_) => !writing(*final(db)),
        },
{
    db.begin_write()
}

/// `redb::WriteTransaction::commit`: what the transaction holds is what is committed.
/// Where it fails, either that or what was committed before.
#[verifier::external_body]
fn commit_write(db: &mut redb::Database, txn: redb::WriteTransaction) -> (r: std::result::Result<
    (),
    redb::CommitError,
>)
    requires
        opened_on(txn, *old(db)),
    ensures
        !writing(*final(db)),
        match r {
            Ok(_) => stored(*final(db)) == staged(txn),
            Err(_) => stored(*final(db)) == stored(*old(db)) || stored(*final(db)) == staged(txn),
        },
{
    txn.commit()
}

/// `redb::WriteTransaction::abort`: the transaction ends and leaves nothing behind.
#[verifier::external_body]
fn abort_write(db: &mut redb::Database, txn: redb::WriteTransaction) -> (r: std::result::Result<
    (),
    redb::StorageError,
>)
    requires
        opened_on(txn, *old(db)),
    ensures
        !writing(*final(db)),
        stored(*final(db)) == stored(*old(db)),
{
    txn.abort()
}

/// `redb::WriteTransaction::open_table` on the inode table, which makes the table
/// where there is none.
#[verifier::external_body]
fn open_inodes(txn: &mut redb::WriteTransaction) -> (r: std::result::Result<(), redb::TableError>)
    ensures
        staged(*final(txn)) == staged(*old(txn)),
        forall|db: redb::Database| #[trigger]
            opened_on(*final(txn), db) == opened_on(*old(txn), db),
{
    match txn.open_table(TableDefinition::<&str, &[u8]>::new("inodes")) {
        Ok(_) => Ok(()),
        Err(error) => Err(error),
    }
}

/// `redb::Table::insert`: binds `key` to `value`, whatever it was bound to.
#[verifier::external_body]
fn insert_inode(txn: &mut redb::WriteTransaction, key: &str, value: &[u8]) -> (r:
    std::result::Result<(), TableOpError>)
    ensures
        r is Ok ==> staged(*final(txn)) == staged(*old(txn)).insert(key@, value@),
        forall|db: redb::Database| #[trigger]
            opened_on(*final(txn), db) == opened_on(*old(txn), db),
{
    match txn.open_table(TableDefinition::<&str, &[u8]>::new("inodes")) {
        Ok(mut table) => match table.insert(key, value) {
            Ok(_) => Ok(()),
            Err(error) => Err(TableOpError::Storage(error)),
        },
        Err(error) => Err(TableOpError::Table(error)),
    }
}

/// `redb::Table::remove`: takes the binding of `key` out, where there is one.
#[verifier::external_body]
fn remove_inode(txn: &mut redb::WriteTransaction, key: &str) -> (r: std::result::Result<
    (),
    TableOpError,
>)
    ensures
        r is Ok ==> staged(*final(txn)) == staged(*old(txn)).remove(key@),
        forall|db: redb::Database| #[trigger]
            opened_on(*final(txn), db) == opened_on(*old(txn), db),
{
    match txn.open_table(TableDefinition::<&str, &[u8]>::new("inodes")) {
        Ok(mut table) => match table.remove(key) {
            Ok(_) => Ok(()),
            Err(error) => Err(TableOpError::Storage(error)),
        },
        Err(error) => Err(TableOpError::Table(error)),
    }
}

/// `redb::ReadableTable::get` inside a write transaction: the bytes bound to `key` as
/// the transaction sees them.
#[verifier::external_body]
fn get_staged(txn: &redb::WriteTransaction, key: &str) -> (r: std::result::Result<
    Option<Vec<u8>>,
    TableOpError,
>)
    ensures
        match r {
            Ok(Some(bytes)) => staged(*txn).contains_key(key@) && bytes@ == staged(*txn)[key@],
            Ok(None) => !staged(*txn).contains_key(key@),
            Err(_) => true,
        },
{
    match txn.open_table(TableDefinition::<&str, &[u8]>::new("inodes")) {
        Ok(table) => match table.get(key) {
            Ok(Some(guard)) => Ok(Some(guard.value().to_vec())),
            Ok(None) => Ok(None),
            Err(error) => Err(TableOpError::Storage(error)),
        },
        Err(error) => Err(TableOpError::Table(error)),
    }
}

/// `redb::ReadableDatabase::begin_read`: a transaction that sees what is committed.
#[verifier::external_body]
fn begin_read(db: &redb::Database) -> (r: std::result::Result<
    redb::ReadTransaction,
    redb::TransactionError,
>)
    ensures
        r matches Ok(read) ==> snapshot(read) == stored(*db),
{
    db.begin_read()
}

/// `redb::ReadOnlyTable::get`: the bytes bound to `key` as the transaction sees them.
#[verifier::external_body]
fn get_committed(read: &redb::ReadTransaction, key: &str) -> (r: std::result::Result<
    Option<Vec<u8>>,
    TableOpError,
>)
    ensures
        match r {
            Ok(Some(bytes)) => snapshot(*read).contains_key(key@) && bytes@ == snapshot(
                *read,
            )[key@],
            Ok(None) => !snapshot(*read).contains_key(key@),
            Err(_) => true,
        },
{
    match read.open_table(TableDefinition::<&str, &[u8]>::new("inodes")) {
        Ok(table) => match table.get(key) {
            Ok(Some(guard)) => Ok(Some(guard.value().to_vec())),
            Ok(None) => Ok(None),
            Err(error) => Err(TableOpError::Storage(error)),
        },
        Err(error) => Err(TableOpError::Table(error)),
    }
}

/// `items` lists the bindings of `contents`, by ascending key.
pub open spec fn lists(items: Seq<(String, Vec<u8>)>, contents: Contents) -> bool {
    &&& forall|i: int, j: int|
        0 <= i < j < items.len() ==> model::text_before(
            (#[trigger] items[i]).0@,
            (#[trigger] items[j]).0@,
        )
    &&& forall|i: int|
        0 <= i < items.len() ==> contents.contains_key((#[trigger] items[i]).0@)
            && contents[items[i].0@] == items[i].1@
    &&& forall|k: Seq<char>| #[trigger]
        contents.contains_key(k) ==> exists|i: int|
            0 <= i < items.len() && (#[trigger] items[i]).0@ == k
}

/// `redb::ReadableTable::iter`: all bindings, by ascending key, as the transaction sees
/// them.
#[verifier::external_body]
fn list_committed(read: &redb::ReadTransaction) -> (r: std::result::Result<
    Vec<(String, Vec<u8>)>,
    TableOpError,
>)
    ensures
        r matches Ok(items) ==> lists(items@, snapshot(*read)),
{
    let table = match read.open_table(TableDefinition::<&str, &[u8]>::new("inodes")) {
        Ok(table) => table,
        Err(error) => return Err(TableOpError::Table(error)),
    };
    let range = table.iter().map_err(TableOpError::Storage)?;
    range.map(
        |item| match item {
            Ok((key, value)) => Ok((key.value().to_owned(), value.value().to_vec())),
            Err(error) => Err(TableOpError::Storage(error)),
        },
    ).collect()
}

/// The bytes of an inode: its kind, 0 for a file and 1 for a directory, in four bytes,
/// then its count in eight, both little-endian.
pub open spec fn encoded(kind: u32, child_count: u64) -> Seq<u8> {
    spec_u32_to_le_bytes(kind) + spec_u64_to_le_bytes(child_count)
}

/// `bincode::serialize` on a pair of integers: their bytes one after the other, each
/// little-endian and in full width. No limit is set on their number, so it succeeds.
#[verifier::external_body]
fn serialize_pair(kind: u32, child_count: u64) -> (r: std::result::Result<
    Vec<u8>,
    Box<bincode::ErrorKind>,
>)
    ensures
        match r {
            Ok(bytes) => bytes@ == encoded(kind, child_count),
            Err(_) => false,
        },
{
    bincode::serialize(&(kind, child_count))
}

/// `bincode::deserialize` to a pair of integers: the first twelve bytes, where there
/// are as many; what follows them is not looked at.
#[verifier::external_body]
fn deserialize_pair(bytes: &[u8]) -> (r: std::result::Result<(u32, u64), Box<bincode::ErrorKind>>)
    ensures
        match r {
            Ok((kind, child_count)) => bytes@.len() >= 12 && bytes@.take(12) == encoded(
                kind,
                child_count,
            ),
            Err(_) => bytes@.len() < 12,
        },
{
    bincode::deserialize(bytes)
}

/// The number that stands for a kind.
pub open spec fn kind_code(kind: NodeKind) -> u32 {
    match kind {
        NodeKind::File => 0,
        NodeKind::Directory => 1,
    }
}

/// The bytes under which an inode is stored.
pub open spec fn inode_bytes(inode: Inode) -> Seq<u8> {
    encoded(kind_code(inode.kind), inode.child_count)
}

/// The inode that `bytes` stand for.
pub open spec fn inode_in(bytes: Seq<u8>) -> Inode {
    choose|inode: Inode| #[trigger] inode_bytes(inode) == bytes
}

/// Two pairs with the same bytes are the same.
proof fn lemma_encoded_injective(kind: u32, count: u64, other_kind: u32, other_count: u64)
    requires
        encoded(kind, count) == encoded(other_kind, other_count),
    ensures
        kind == other_kind,
        count == other_count,
{
    lemma_auto_spec_u32_to_from_le_bytes();
    lemma_auto_spec_u64_to_from_le_bytes();
    let a = encoded(kind, count);
    let b = encoded(other_kind, other_count);
    assert(a.take(4) =~= spec_u32_to_le_bytes(kind));
    assert(b.take(4) =~= spec_u32_to_le_bytes(other_kind));
    assert(a.skip(4) =~= spec_u64_to_le_bytes(count));
    assert(b.skip(4) =~= spec_u64_to_le_bytes(other_count));
}

/// What was stored is what is read back.
pub proof fn lemma_inode_round_trip(inode: Inode)
    ensures
        inode_in(inode_bytes(inode)) == inode,
        inode_bytes(inode).len() == 12,
{
    lemma_auto_spec_u32_to_from_le_bytes();
    lemma_auto_spec_u64_to_from_le_bytes();
    let found = inode_in(inode_bytes(inode));
    assert(inode_bytes(found) == inode_bytes(inode));
    lemma_encoded_injective(
        kind_code(found.kind),
        found.child_count,
        kind_code(inode.kind),
        inode.child_count,
    );
}

/// Every key of `contents` is a path, and every value stands for an inode.
pub open spec fn well_stored(contents: Contents) -> bool {
    forall|k: Seq<char>| #[trigger]
        contents.contains_key(k) ==> path::valid_path(k) && exists|inode: Inode| #[trigger]
            inode_bytes(inode) == contents[k]
}

/// The state that `contents` stand for.
pub open spec fn state_in(contents: Contents) -> State {
    Map::new(|k: Path| contents.contains_key(k), |k: Path| inode_in(contents[k]))
}

proof fn lemma_insert_stored(contents: Contents, key: Path, inode: Inode)
    requires
        well_stored(contents),
        path::valid_path(key),
    ensures
        well_stored(contents.insert(key, inode_bytes(inode))),
        state_in(contents.insert(key, inode_bytes(inode))) == state_in(contents).insert(key, inode),
{
    lemma_inode_round_trip(inode);
    let next = contents.insert(key, inode_bytes(inode));
    assert forall|k: Seq<char>| #[trigger] next.contains_key(k) implies path::valid_path(k)
        && exists|i: Inode| #[trigger] inode_bytes(i) == next[k] by {
        if k != key {
            assert(contents.contains_key(k));
        } else {
            assert(inode_bytes(inode) == next[k]);
        }
    }
    assert(state_in(next) =~= state_in(contents).insert(key, inode));
}

proof fn lemma_remove_stored(contents: Contents, key: Path)
    requires
        well_stored(contents),
    ensures
        well_stored(contents.remove(key)),
        state_in(contents.remove(key)) == state_in(contents).remove(key),
{
    let next = contents.remove(key);
    assert forall|k: Seq<char>| #[trigger] next.contains_key(k) implies path::valid_path(k)
        && exists|i: Inode| #[trigger] inode_bytes(i) == next[k] by {
        assert(contents.contains_key(k));
    }
    assert(state_in(next) =~= state_in(contents).remove(key));
}

/// The bytes under which `inode` is stored.
fn encode_inode(inode: &Inode) -> (r: Result<Vec<u8>>)
    ensures
        match r {
            Ok(bytes) => bytes@ == inode_bytes(*inode),
            Err(_) => false,
        },
{
    let kind: u32 = match inode.kind {
        NodeKind::File => 0,
        NodeKind::Directory => 1,
    };
    match serialize_pair(kind, inode.child_count) {
        Ok(bytes) => Ok(bytes),
        Err(error) => Err(Error::Bincode(error)),
    }
}

/// The inode that `bytes` start with.
pub fn decode_inode(bytes: &Vec<u8>) -> (r: Result<Inode>)
    ensures
        match r {
            Ok(inode) => bytes@.len() >= 12 && bytes@.take(12) == inode_bytes(inode),
            Err(Error::Bincode(_)) => bytes@.len() < 12,
            Err(Error::UnknownKind { kind }) => bytes@.len() >= 12 && kind >= 2
                && spec_u32_to_le_bytes(kind) == bytes@.take(4),
            Err(_) => false,
        },
{
    match deserialize_pair(bytes.as_slice()) {
        Ok((kind, child_count)) => {
            if kind == 0 {
                Ok(Inode { kind: NodeKind::File, child_count })
            } else if kind == 1 {
                Ok(Inode { kind: NodeKind::Directory, child_count })
            } else {
                proof {
                    lemma_auto_spec_u32_to_from_le_bytes();
                    assert(encoded(kind, child_count).take(4) =~= spec_u32_to_le_bytes(kind));
                    assert(bytes@.take(12).take(4) =~= bytes@.take(4));
                }
                Err(Error::UnknownKind { kind })
            }
        },
        Err(error) => Err(Error::Bincode(error)),
    }
}

/// Reads an inode that was stored.
fn decode_stored(bytes: &Vec<u8>, Ghost(inode): Ghost<Inode>) -> (r: Result<Inode>)
    requires
        bytes@ == inode_bytes(inode),
    ensures
        r == Ok::<Inode, Error>(inode),
{
    proof {
        lemma_inode_round_trip(inode);
        assert(bytes@.take(12) =~= bytes@);
        lemma_auto_spec_u32_to_from_le_bytes();
        assert(bytes@.take(4) =~= spec_u32_to_le_bytes(kind_code(inode.kind)));
    }
    let r = decode_inode(bytes);
    proof {
        if r is Ok {
            lemma_inode_round_trip(r->Ok_0);
        } else {
            assert(r->Err_0 is UnknownKind);
            let kind = r->Err_0->UnknownKind_kind;
            assert(spec_u32_from_le_bytes(spec_u32_to_le_bytes(kind)) == kind);
            assert(spec_u32_from_le_bytes(spec_u32_to_le_bytes(kind_code(inode.kind)))
                == kind_code(inode.kind));
        }
    }
    r
}

fn table_op_error(error: TableOpError) -> (r: Error)
    ensures
        r is RedbTable || r is RedbStorage,
{
    match error {
        TableOpError::Table(error) => Error::RedbTable(error),
        TableOpError::Storage(error) => Error::RedbStorage(error),
    }
}

/// The database, and not the request, is to blame.
pub open spec fn store_error(error: Error) -> bool {
    error is RedbTransaction || error is RedbTable || error is RedbStorage || error is RedbCommit
}

/// The inodes of a shard.
pub struct RedbInMemoryInodeStore {
    db: redb::Database,
}

impl View for RedbInMemoryInodeStore {
    type V = State;

    closed spec fn view(&self) -> State {
        state_in(stored(self.db))
    }
}

impl RedbInMemoryInodeStore {
    /// No transaction is open, and everything stored is an inode under a path.
    pub closed spec fn wf(&self) -> bool {
        !writing(self.db) && well_stored(stored(self.db))
    }

    /// An empty store.
    pub fn new() -> (r: Result<Self>)
        ensures
            match r {
                Ok(store) => store.wf() && store@ == Map::<Path, Inode>::empty(),
                Err(error) => error is RedbDatabase || store_error(error),
            },
    {
        let mut db = match create_database() {
            Ok(db) => db,
            Err(error) => return Err(Error::RedbDatabase(error)),
        };
        let mut txn = match begin_write(&mut db) {
            Ok(txn) => txn,
            Err(error) => return Err(Error::RedbTransaction(error)),
        };
        match open_inodes(&mut txn) {
            Ok(_) => {},
            Err(error) => {
                let _ = abort_write(&mut db, txn);
                return Err(Error::RedbTable(error));
            },
        }
        match commit_write(&mut db, txn) {
            Ok(_) => {},
            Err(error) => return Err(Error::RedbCommit(error)),
        }
        let store = RedbInMemoryInodeStore { db };
        assert(store@ =~= Map::<Path, Inode>::empty());
        Ok(store)
    }

    /// Reads all of `keys` at one time.
    pub fn read_many(&self, keys: &OrdSet<Key>) -> (r: Result<OrdMap<Key, ReadValue>>)
        requires
            self.wf(),
        ensures
            match r {
                Ok(reads) => reads@ == state::reads_of(self@, keys@),
                Err(error) => store_error(error),
            },
    {
        let read = match begin_read(&self.db) {
            Ok(read) => read,
            Err(error) => return Err(Error::RedbTransaction(error)),
        };
        let n = keys.len();
        let mut out: OrdMap<Key, ReadValue> = OrdMap::new();
        let mut i: usize = 0;
        assert(out@ =~= state::reads_of(self@, keys.ordered().take(0).to_set()));
        while i < n
            invariant
                i <= n,
                n == keys.ordered().len(),
                self.wf(),
                snapshot(read) == stored(self.db),
                out@ == state::reads_of(self@, keys.ordered().take(i as int).to_set()),
            decreases n - i,
        {
            let key = keys.at(i);
            match get_committed(&read, key.as_str()) {
                Ok(Some(bytes)) => {
                    let ghost inode = inode_in(bytes@);
                    assert(inode_bytes(inode) == bytes@);
                    let found = decode_stored(&bytes, Ghost(inode))?;
                    let _ = out.insert(key.clone(), ReadValue::Present(found));
                },
                Ok(None) => {
                    let _ = out.insert(key.clone(), ReadValue::Missing);
                },
                Err(error) => return Err(table_op_error(error)),
            }
            proof {
                collections::lemma_take_to_set(keys.ordered(), i as int);
            }
            i += 1;
            assert(out@ =~= state::reads_of(self@, keys.ordered().take(i as int).to_set()));
        }
        assert(keys.ordered().take(i as int) =~= keys.ordered());
        Ok(out)
    }

    /// Ends `txn` without a trace.
    fn give_up(&mut self, txn: redb::WriteTransaction)
        requires
            opened_on(txn, old(self).db),
            well_stored(stored(old(self).db)),
        ensures
            final(self).wf(),
            final(self)@ == old(self)@,
    {
        let _ = abort_write(&mut self.db, txn);
    }

    /// Makes all of `writes`, or none.
    pub fn apply_writes_atomically(&mut self, writes: &Vec<WriteOp>) -> (r: Result<()>)
        requires
            old(self).wf(),
        ensures
            final(self).wf(),
            ({
                let after = state::apply_writes(old(self)@, model::write_views(writes@));
                match r {
                    Ok(_) => final(self)@ == after,
                    Err(error) => {
                        &&& store_error(error)
                        &&& final(self)@ == old(self)@ || (error is RedbCommit && final(self)@
                            == after)
                    },
                }
            }),
    {
        let ghost start = self@;
        let ghost views = model::write_views(writes@);
        let mut txn = match begin_write(&mut self.db) {
            Ok(txn) => txn,
            Err(error) => return Err(Error::RedbTransaction(error)),
        };
        match open_inodes(&mut txn) {
            Ok(_) => {},
            Err(error) => {
                self.give_up(txn);
                return Err(Error::RedbTable(error));
            },
        }
        let mut i: usize = 0;
        while i < writes.len()
            invariant
                i <= writes.len(),
                views == model::write_views(writes@),
                start == old(self)@,
                self@ == start,
                well_stored(stored(self.db)),
                opened_on(txn, self.db),
                well_stored(staged(txn)),
                state_in(staged(txn)) == state::apply_writes(start, views.take(i as int)),
            decreases writes.len() - i,
        {
            let op = &writes[i];
            let ghost before = staged(txn);
            proof {
                assert(views[i as int] == op@);
                assert(views.take(i + 1).drop_last() =~= views.take(i as int));
                assert(views.take(i + 1).last() == views[i as int]);
            }
            match op {
                WriteOp::Put { key, value } => {
                    key.well_formed();
                    let bytes = match encode_inode(value) {
                        Ok(bytes) => bytes,
                        Err(error) => {
                            self.give_up(txn);
                            return Err(error);
                        },
                    };
                    match insert_inode(&mut txn, key.as_str(), bytes.as_slice()) {
                        Ok(_) => {},
                        Err(error) => {
                            self.give_up(txn);
                            return Err(table_op_error(error));
                        },
                    }
                    proof {
                        lemma_insert_stored(before, key@, *value);
                    }
                },
                WriteOp::Delete { key } => {
                    match remove_inode(&mut txn, key.as_str()) {
                        Ok(_) => {},
                        Err(error) => {
                            self.give_up(txn);
                            return Err(table_op_error(error));
                        },
                    }
                    proof {
                        lemma_remove_stored(before, key@);
                    }
                },
            }
            i += 1;
        }
        assert(views.take(i as int) =~= views);
        match commit_write(&mut self.db, txn) {
            Ok(_) => Ok(()),
            Err(error) => Err(Error::RedbCommit(error)),
        }
    }

    /// Makes one change inside `txn`.
    fn stage_delta_op(txn: &mut redb::WriteTransaction, op: &DeltaOp) -> (r: Result<()>)
        requires
            well_stored(staged(*old(txn))),
        ensures
            forall|db: redb::Database| #[trigger]
                opened_on(*final(txn), db) == opened_on(*old(txn), db),
            match r {
                Ok(_) => {
                    &&& well_stored(staged(*final(txn)))
                    &&& delta::apply_op(state_in(staged(*old(txn))), op@) == Some(
                        state_in(staged(*final(txn))),
                    )
                },
                Err(error) => store_error(error) || (delta::misfit(
                    state_in(staged(*old(txn))),
                    op@,
                    error,
                ) && delta::apply_op(state_in(staged(*old(txn))), op@) is None),
            },
    {
        let ghost before = staged(*txn);
        let (key, value) = match op {
            DeltaOp::Put { key, value } => (key, *value),
            DeltaOp::Delete { key } => {
                proof {
                    lemma_remove_stored(before, key@);
                }
                return match remove_inode(txn, key.as_str()) {
                    Ok(_) => Ok(()),
                    Err(error) => Err(table_op_error(error)),
                };
            },
            DeltaOp::AddIntegerField { key, delta, .. } => {
                let found = match get_staged(txn, key.as_str()) {
                    Ok(Some(bytes)) => {
                        let ghost stored_inode = inode_in(bytes@);
                        assert(inode_bytes(stored_inode) == bytes@);
                        Some(decode_stored(&bytes, Ghost(stored_inode))?)
                    },
                    Ok(None) => None,
                    Err(error) => return Err(table_op_error(error)),
                };
                match changed_count(key, found, *delta) {
                    Ok(inode) => (key, inode),
                    Err(error) => return Err(error),
                }
            },
        };
        key.well_formed();
        let bytes = encode_inode(&value)?;
        proof {
            lemma_insert_stored(before, key@, value);
        }
        match insert_inode(txn, key.as_str(), bytes.as_slice()) {
            Ok(_) => Ok(()),
            Err(error) => Err(table_op_error(error)),
        }
    }

    /// Makes all changes of `delta`, or none.
    pub fn apply_delta_atomically(&mut self, delta: &TxDelta) -> (r: Result<()>)
        requires
            old(self).wf(),
        ensures
            final(self).wf(),
            ({
                let after = delta::apply_delta(old(self)@, delta@);
                match r {
                    Ok(_) => after == Some(final(self)@),
                    Err(error) => {
                        ||| {
                            &&& store_error(error)
                            &&& final(self)@ == old(self)@ || (error is RedbCommit && after
                                == Some(final(self)@))
                        }
                        ||| {
                            &&& final(self)@ == old(self)@
                            &&& after is None
                            &&& exists|reached: State| #[trigger]
                                delta::first_misfit(old(self)@, delta@, reached, error)
                        }
                    },
                }
            }),
    {
        let ghost start = self@;
        let ghost ops = delta@;
        let mut txn = match begin_write(&mut self.db) {
            Ok(txn) => txn,
            Err(error) => return Err(Error::RedbTransaction(error)),
        };
        match open_inodes(&mut txn) {
            Ok(_) => {},
            Err(error) => {
                self.give_up(txn);
                return Err(Error::RedbTable(error));
            },
        }
        let mut i: usize = 0;
        while i < delta.ops.len()
            invariant
                i <= delta.ops.len(),
                ops == delta@,
                start == old(self)@,
                self@ == start,
                well_stored(stored(self.db)),
                opened_on(txn, self.db),
                well_stored(staged(txn)),
                delta::apply_delta(start, ops.take(i as int)) == Some(state_in(staged(txn))),
            decreases delta.ops.len() - i,
        {
            let ghost before = state_in(staged(txn));
            proof {
                assert(ops[i as int] == delta.ops@[i as int]@);
                assert(ops.take(i + 1).drop_last() =~= ops.take(i as int));
                assert(ops.take(i + 1).last() == ops[i as int]);
            }
            match RedbInMemoryInodeStore::stage_delta_op(&mut txn, &delta.ops[i]) {
                Ok(_) => {},
                Err(error) => {
                    self.give_up(txn);
                    proof {
                        if !store_error(error) {
                            assert(delta::apply_delta(start, ops.take(i as int)) == Some(before));
                            assert(delta::first_misfit(start, ops, before, error));
                            delta::lemma_misfit_stays(start, ops, i + 1);
                        }
                    }
                    return Err(error);
                },
            }
            i += 1;
        }
        assert(ops.take(i as int) =~= ops);
        match commit_write(&mut self.db, txn) {
            Ok(_) => Ok(()),
            Err(error) => Err(Error::RedbCommit(error)),
        }
    }

    /// Everything that is stored.
    pub fn dump(&self) -> (r: Result<OrdMap<Key, Inode>>)
        requires
            self.wf(),
        ensures
            match r {
                Ok(state) => state@ == self@,
                Err(error) => store_error(error),
            },
    {
        let read = match begin_read(&self.db) {
            Ok(read) => read,
            Err(error) => return Err(Error::RedbTransaction(error)),
        };
        let items = match list_committed(&read) {
            Ok(items) => items,
            Err(error) => return Err(table_op_error(error)),
        };
        let ghost contents = stored(self.db);
        let mut out: OrdMap<Key, Inode> = OrdMap::new();
        let mut i: usize = 0;
        while i < items.len()
            invariant
                i <= items.len(),
                self.wf(),
                contents == stored(self.db),
                lists(items@, contents),
                forall|k: Path| #[trigger]
                    out@.contains_key(k) <==> exists|j: int|
                        0 <= j < i && (#[trigger] items@[j]).0@ == k,
                forall|k: Path| #[trigger]
                    out@.contains_key(k) ==> self@.contains_key(k) && out@[k] == self@[k],
            decreases items.len() - i,
        {
            let ghost before = out@;
            let ghost text = items@[i as int].0@;
            assert(contents.contains_key(text) && contents[text] == items@[i as int].1@);
            let key = Key::new(items[i].0.clone())?;
            let ghost stored_inode = inode_in(contents[text]);
            assert(inode_bytes(stored_inode) == contents[text]);
            let inode = decode_stored(&items[i].1, Ghost(stored_inode))?;
            let _ = out.insert(key, inode);
            proof {
                assert forall|k: Path| #[trigger] out@.contains_key(k) <==> exists|j: int|
                    0 <= j < i + 1 && (#[trigger] items@[j]).0@ == k by {
                    if k == text {
                        assert(items@[i as int].0@ == k);
                    } else {
                        assert(out@.contains_key(k) <==> before.contains_key(k));
                    }
                }
                assert forall|k: Path| #[trigger] out@.contains_key(k) implies self@.contains_key(k)
                    && out@[k] == self@[k] by {
                    if k != text {
                        assert(before.contains_key(k));
                    }
                }
            }
            i += 1;
        }
        proof {
            assert forall|k: Path| #[trigger] self@.contains_key(k) implies out@.contains_key(k) by {
                assert(contents.contains_key(k));
            }
            assert(out@.dom() =~= self@.dom());
            assert(out@ =~= self@);
        }
        Ok(out)
    }
}

} // verus!
