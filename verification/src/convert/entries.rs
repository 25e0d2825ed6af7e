//! Reads, writes and inodes as messages.

use crate::collections;
use crate::collections::{OrdMap, SortKey};
use crate::convert::codes;
use crate::convert::codes::{node_kind_from_i32, node_kind_to_i32};
use crate::error::{Error, ProtoFault, Result};
use crate::model;
use crate::model::{Inode, Key, NodeKind, ReadValue, WriteOp, WriteOpView};
use crate::path;
use crate::path::Path;
use crate::proto::pb;
use crate::state::{Reads, State};
use vstd::prelude::*;

verus! {

/// The message that stands for an inode.
pub open spec fn inode_message(value: Inode) -> pb::Inode {
    pb::Inode { kind: codes::node_kind_code(value.kind), child_count: value.child_count }
}

/// A message holds an inode.
pub open spec fn inode_parses(value: Option<pb::Inode>) -> bool {
    value is Some && 1 <= value->0.kind <= 2
}

/// The inode in a message.
pub open spec fn inode_of(value: pb::Inode) -> Inode {
    Inode {
        kind: if value.kind == 1 {
            NodeKind::File
        } else {
            NodeKind::Directory
        },
        child_count: value.child_count,
    }
}

/// Why a message holds no inode.
pub open spec fn inode_fault(value: Option<pb::Inode>, error: Error) -> bool {
    match value {
        None => error == Error::InvalidProto(ProtoFault::MissingInode),
        Some(inode) => !inode_parses(value) && error == Error::InvalidProto(
            ProtoFault::InvalidNodeKind(inode.kind),
        ),
    }
}

pub fn inode_from_proto(value: Option<pb::Inode>) -> (r: Result<Inode>)
    ensures
        match r {
            Ok(inode) => inode_parses(value) && inode == inode_of(value->0),
            Err(error) => !inode_parses(value) && inode_fault(value, error),
        },
{
    match value {
        None => Err(Error::InvalidProto(ProtoFault::MissingInode)),
        Some(message) => match node_kind_from_i32(message.kind) {
            Ok(kind) => Ok(Inode { kind, child_count: message.child_count }),
            Err(error) => Err(error),
        },
    }
}

pub fn inode_to_proto(value: &Inode) -> (r: pb::Inode)
    ensures
        r == inode_message(*value),
{
    pb::Inode { kind: node_kind_to_i32(value.kind), child_count: value.child_count }
}

/// An inode that is sent is read back unchanged.
pub proof fn lemma_inode_round_trip(value: Inode)
    ensures
        inode_parses(Some(inode_message(value))),
        inode_of(inode_message(value)) == value,
{
}

/// A message holds a read.
pub open spec fn read_parses(entry: pb::ReadEntry) -> bool {
    &&& path::valid_path(entry.key@)
    &&& match entry.value {
        Some(pb::read_entry::Value::Inode(inode)) => inode_parses(Some(inode)),
        Some(pb::read_entry::Value::Missing(_)) => true,
        None => false,
    }
}

/// What the read in a message found.
pub open spec fn read_value_in(entry: pb::ReadEntry) -> ReadValue {
    match entry.value {
        Some(pb::read_entry::Value::Inode(inode)) => ReadValue::Present(inode_of(inode)),
        _ => ReadValue::Missing,
    }
}

/// Why a message holds no read: the key is looked at first.
pub open spec fn read_fault(entry: pb::ReadEntry, error: Error) -> bool {
    match error {
        Error::InvalidPath(text) => !path::valid_path(entry.key@) && text@ == entry.key@,
        _ => {
            &&& path::valid_path(entry.key@)
            &&& match entry.value {
                None => error == Error::InvalidProto(ProtoFault::MissingReadValue),
                Some(pb::read_entry::Value::Inode(inode)) => inode_fault(Some(inode), error),
                Some(pb::read_entry::Value::Missing(_)) => false,
            }
        },
    }
}

/// The read in a message.
fn read_entry_in(entry: &pb::ReadEntry) -> (r: Result<(Key, ReadValue)>)
    ensures
        match r {
            Ok((key, value)) => {
                read_parses(*entry) && key@ == entry.key@ && value == read_value_in(*entry)
            },
            Err(error) => !read_parses(*entry) && read_fault(*entry, error),
        },
{
    let key = match Key::new(entry.key.clone()) {
        Ok(key) => key,
        Err(error) => return Err(error),
    };
    match entry.value {
        None => Err(Error::InvalidProto(ProtoFault::MissingReadValue)),
        Some(pb::read_entry::Value::Inode(inode)) => match inode_from_proto(Some(inode)) {
            Ok(inode) => Ok((key, ReadValue::Present(inode))),
            Err(error) => Err(error),
        },
        Some(pb::read_entry::Value::Missing(_)) => Ok((key, ReadValue::Missing)),
    }
}

/// The one read of a message.
pub fn read_entry_from_proto(entry: Option<pb::ReadEntry>) -> (r: Result<(Key, ReadValue)>)
    ensures
        match r {
            Ok((key, value)) => {
                &&& entry is Some && read_parses(entry->0)
                &&& key@ == entry->0.key@ && value == read_value_in(entry->0)
            },
            Err(error) => match entry {
                None => error == Error::InvalidProto(ProtoFault::MissingReadEntry),
                Some(entry) => !read_parses(entry) && read_fault(entry, error),
            },
        },
{
    match &entry {
        None => Err(Error::InvalidProto(ProtoFault::MissingReadEntry)),
        Some(entry) => read_entry_in(entry),
    }
}

/// The keys of reads.
pub open spec fn read_keys_in(entries: Seq<pb::ReadEntry>) -> Seq<Path> {
    entries.map_values(|e: pb::ReadEntry| e.key@)
}

/// All of `entries` are reads, of different keys.
pub open spec fn reads_parse(entries: Seq<pb::ReadEntry>) -> bool {
    &&& forall|i: int| 0 <= i < entries.len() ==> read_parses(#[trigger] entries[i])
    &&& read_keys_in(entries).no_duplicates()
}

/// The reads in messages.
pub open spec fn reads_in(entries: Seq<pb::ReadEntry>) -> Reads
    decreases entries.len(),
{
    if entries.len() == 0 {
        Map::empty()
    } else {
        reads_in(entries.drop_last()).insert(entries.last().key@, read_value_in(entries.last()))
    }
}

/// `n` is the place of the first of `entries` that cannot be taken.
pub open spec fn reads_stop(entries: Seq<pb::ReadEntry>, n: int, error: Error) -> bool {
    &&& 0 <= n < entries.len()
    &&& reads_parse(entries.take(n))
    &&& match error {
        Error::InvalidProto(ProtoFault::DuplicateReadKey { key }) => {
            &&& read_parses(entries[n])
            &&& read_keys_in(entries.take(n)).contains(entries[n].key@)
            &&& key@ == entries[n].key@
        },
        _ => !read_parses(entries[n]) && read_fault(entries[n], error),
    }
}

proof fn lemma_reads_dom(entries: Seq<pb::ReadEntry>)
    ensures
        reads_in(entries).dom() == read_keys_in(entries).to_set(),
    decreases entries.len(),
{
    let keys = read_keys_in(entries);
    if entries.len() == 0 {
        assert(keys.to_set() =~= Set::<Path>::empty());
        assert(reads_in(entries).dom() =~= keys.to_set());
    } else {
        lemma_reads_dom(entries.drop_last());
        let n = entries.len() - 1;
        collections::lemma_take_to_set(keys, n);
        assert(keys.take(n) =~= read_keys_in(entries.drop_last()));
        assert(keys.take(n + 1) =~= keys);
        assert(reads_in(entries).dom() =~= keys.to_set());
    }
}

pub fn read_entries_from_proto(entries: Vec<pb::ReadEntry>) -> (r: Result<OrdMap<Key, ReadValue>>)
    ensures
        match r {
            Ok(reads) => reads_parse(entries@) && reads@ == reads_in(entries@),
            Err(error) => !reads_parse(entries@) && exists|n: int| #[trigger]
                reads_stop(entries@, n, error),
        },
{
    let ghost keys = read_keys_in(entries@);
    let mut reads: OrdMap<Key, ReadValue> = OrdMap::new();
    let mut i: usize = 0;
    assert(entries@.take(0) =~= Seq::<pb::ReadEntry>::empty());
    while i < entries.len()
        invariant
            i <= entries.len(),
            keys == read_keys_in(entries@),
            reads_parse(entries@.take(i as int)),
            reads@ == reads_in(entries@.take(i as int)),
        decreases entries.len() - i,
    {
        let ghost n = i as int;
        let ghost before = entries@.take(n);
        proof {
            lemma_reads_dom(before);
            assert(read_keys_in(before) =~= keys.take(n));
            assert(entries@.take(n + 1).drop_last() =~= before);
            assert(entries@.take(n + 1).last() == entries@[n]);
        }
        let (key, value) = match read_entry_in(&entries[i]) {
            Ok(found) => found,
            Err(error) => {
                assert(reads_stop(entries@, n, error));
                return Err(error);
            },
        };
        let copy = key.clone();
        if reads.insert(key, value).is_some() {
            let error = Error::InvalidProto(ProtoFault::DuplicateReadKey { key: copy });
            proof {
                assert(read_keys_in(before).to_set().contains(keys[n]));
                assert(read_keys_in(before).contains(entries@[n].key@));
                assert(reads_stop(entries@, n, error));
                let m = choose|m: int| 0 <= m < n && keys.take(n)[m] == keys[n];
                assert(keys[m] == keys[n]);
            }
            return Err(error);
        }
        proof {
            let next = entries@.take(n + 1);
            assert(read_keys_in(next) =~= keys.take(n + 1));
            let grown = keys.take(n + 1);
            assert forall|a: int, b: int| 0 <= a < b < grown.len() implies grown[a] != grown[b] by {
                if b < n {
                    assert(keys.take(n)[a] != keys.take(n)[b]);
                } else {
                    assert(keys.take(n).to_set().contains(keys.take(n)[a]));
                }
            }
            assert forall|a: int| 0 <= a < next.len() implies read_parses(#[trigger] next[a]) by {
                if a < n {
                    assert(next[a] == before[a]);
                }
            }
        }
        i += 1;
    }
    assert(entries@.take(i as int) =~= entries@);
    Ok(reads)
}

/// `entry` stands for the value of a key.
pub open spec fn read_sent(key: Path, value: ReadValue, entry: pb::ReadEntry) -> bool {
    &&& path::valid_path(key)
    &&& entry.key@ == key
    &&& match value {
        ReadValue::Present(inode) => entry.value == Some(
            pb::read_entry::Value::Inode(inode_message(inode)),
        ),
        ReadValue::Missing => entry.value == Some(pb::read_entry::Value::Missing(pb::Missing {  })),
    }
}

/// `entries` stand for reads, in the order of their keys.
pub open spec fn reads_sent(reads: Reads, entries: Seq<pb::ReadEntry>) -> bool {
    let keys = collections::sorted::<Key>(reads.dom());
    &&& reads.dom().finite()
    &&& entries.len() == keys.len()
    &&& forall|i: int|
        0 <= i < keys.len() ==> read_sent(keys[i], reads[keys[i]], #[trigger] entries[i])
}

pub fn read_entries_to_proto(reads: &OrdMap<Key, ReadValue>) -> (r: Vec<pb::ReadEntry>)
    ensures
        reads_sent(reads@, r@),
{
    let n = reads.len();
    let ghost order = reads.ordered();
    let mut out: Vec<pb::ReadEntry> = Vec::new();
    let mut i: usize = 0;
    while i < n
        invariant
            i <= n,
            n == order.len(),
            order == reads.ordered(),
            out.len() == i,
            forall|j: int|
                0 <= j < i ==> read_sent(order[j], reads@[order[j]], #[trigger] out@[j]),
        decreases n - i,
    {
        let key = reads.key_at(i);
        let value = match reads.value_at(i) {
            ReadValue::Present(inode) => pb::read_entry::Value::Inode(inode_to_proto(inode)),
            ReadValue::Missing => pb::read_entry::Value::Missing(pb::Missing {  }),
        };
        out.push(pb::ReadEntry { key: key.to_text(), value: Some(value) });
        i += 1;
    }
    out
}

/// Messages whose keys are ascending hold what a map binds these keys to.
proof fn lemma_reads_in(entries: Seq<pb::ReadEntry>, i: int)
    requires
        0 <= i < entries.len(),
        read_keys_in(entries).no_duplicates(),
    ensures
        reads_in(entries).contains_key(entries[i].key@),
        reads_in(entries)[entries[i].key@] == read_value_in(entries[i]),
    decreases entries.len(),
{
    let n = entries.len() - 1;
    let keys = read_keys_in(entries);
    if i < n {
        assert(keys[i] != keys[n]);
        let front = entries.drop_last();
        assert(read_keys_in(front) =~= keys.take(n));
        lemma_reads_in(front, i);
        assert(front[i] == entries[i]);
    }
}

/// Reads that are sent are read back unchanged.
pub proof fn lemma_reads_round_trip(reads: Reads, entries: Seq<pb::ReadEntry>)
    requires
        reads_sent(reads, entries),
    ensures
        reads_parse(entries),
        reads_in(entries) == reads,
{
    let order = collections::sorted::<Key>(reads.dom());
    collections::lemma_sorted_of_finite::<Key>(reads.dom());
    let keys = read_keys_in(entries);
    assert forall|i: int| 0 <= i < order.len() implies keys[i] == order[i] by {
        assert(read_sent(order[i], reads[order[i]], entries[i]));
    }
    assert(keys =~= order);
    assert forall|a: int, b: int| 0 <= a < b < keys.len() implies keys[a] != keys[b] by {
        assert(<Key as SortKey>::before(order[a], order[b]));
        <Key as SortKey>::before_irreflexive(order[a]);
    }
    assert forall|i: int| 0 <= i < entries.len() implies read_parses(#[trigger] entries[i]) by {
        assert(read_sent(order[i], reads[order[i]], entries[i]));
    }
    lemma_reads_dom(entries);
    assert forall|k: Path| #[trigger] reads.contains_key(k) implies reads_in(entries)[k]
        == reads[k] by {
        assert(order.to_set().contains(k));
        let i = choose|i: int| 0 <= i < order.len() && order[i] == k;
        assert(read_sent(order[i], reads[order[i]], entries[i]));
        lemma_reads_in(entries, i);
    }
    assert(reads_in(entries) =~= reads);
}

/// A message holds an inode under a path.
pub open spec fn inode_entry_parses(entry: pb::InodeEntry) -> bool {
    path::valid_path(entry.key@) && inode_parses(entry.inode)
}

/// Why a message holds no inode under a path: the key is looked at first.
pub open spec fn inode_entry_fault(entry: pb::InodeEntry, error: Error) -> bool {
    match error {
        Error::InvalidPath(text) => !path::valid_path(entry.key@) && text@ == entry.key@,
        _ => path::valid_path(entry.key@) && inode_fault(entry.inode, error),
    }
}

pub open spec fn inode_keys_in(entries: Seq<pb::InodeEntry>) -> Seq<Path> {
    entries.map_values(|e: pb::InodeEntry| e.key@)
}

/// All of `entries` are inodes, under different paths.
pub open spec fn inodes_parse(entries: Seq<pb::InodeEntry>) -> bool {
    &&& forall|i: int| 0 <= i < entries.len() ==> inode_entry_parses(#[trigger] entries[i])
    &&& inode_keys_in(entries).no_duplicates()
}

/// The inodes in messages.
pub open spec fn inodes_in(entries: Seq<pb::InodeEntry>) -> State
    decreases entries.len(),
{
    if entries.len() == 0 {
        Map::empty()
    } else {
        inodes_in(entries.drop_last()).insert(
            entries.last().key@,
            inode_of(entries.last().inode->0),
        )
    }
}

/// `n` is the place of the first of `entries` that cannot be taken.
pub open spec fn inodes_stop(entries: Seq<pb::InodeEntry>, n: int, error: Error) -> bool {
    &&& 0 <= n < entries.len()
    &&& inodes_parse(entries.take(n))
    &&& match error {
        Error::InvalidProto(ProtoFault::DuplicateInodeKey { key }) => {
            &&& inode_entry_parses(entries[n])
            &&& inode_keys_in(entries.take(n)).contains(entries[n].key@)
            &&& key@ == entries[n].key@
        },
        _ => !inode_entry_parses(entries[n]) && inode_entry_fault(entries[n], error),
    }
}

proof fn lemma_inodes_dom(entries: Seq<pb::InodeEntry>)
    ensures
        inodes_in(entries).dom() == inode_keys_in(entries).to_set(),
    decreases entries.len(),
{
    let keys = inode_keys_in(entries);
    if entries.len() == 0 {
        assert(keys.to_set() =~= Set::<Path>::empty());
        assert(inodes_in(entries).dom() =~= keys.to_set());
    } else {
        lemma_inodes_dom(entries.drop_last());
        let n = entries.len() - 1;
        collections::lemma_take_to_set(keys, n);
        assert(keys.take(n) =~= inode_keys_in(entries.drop_last()));
        assert(keys.take(n + 1) =~= keys);
        assert(inodes_in(entries).dom() =~= keys.to_set());
    }
}

pub fn inode_entries_from_proto(entries: Vec<pb::InodeEntry>) -> (r: Result<OrdMap<Key, Inode>>)
    ensures
        match r {
            Ok(inodes) => inodes_parse(entries@) && inodes@ == inodes_in(entries@),
            Err(error) => !inodes_parse(entries@) && exists|n: int| #[trigger]
                inodes_stop(entries@, n, error),
        },
{
    let ghost keys = inode_keys_in(entries@);
    let mut out: OrdMap<Key, Inode> = OrdMap::new();
    let mut i: usize = 0;
    assert(entries@.take(0) =~= Seq::<pb::InodeEntry>::empty());
    while i < entries.len()
        invariant
            i <= entries.len(),
            keys == inode_keys_in(entries@),
            inodes_parse(entries@.take(i as int)),
            out@ == inodes_in(entries@.take(i as int)),
        decreases entries.len() - i,
    {
        let ghost n = i as int;
        let ghost before = entries@.take(n);
        proof {
            lemma_inodes_dom(before);
            assert(inode_keys_in(before) =~= keys.take(n));
            assert(entries@.take(n + 1).drop_last() =~= before);
            assert(entries@.take(n + 1).last() == entries@[n]);
        }
        let entry = &entries[i];
        let key = match Key::new(entry.key.clone()) {
            Ok(key) => key,
            Err(error) => {
                assert(inodes_stop(entries@, n, error));
                return Err(error);
            },
        };
        let inode = match inode_from_proto(entry.inode) {
            Ok(inode) => inode,
            Err(error) => {
                assert(inodes_stop(entries@, n, error));
                return Err(error);
            },
        };
        let copy = key.clone();
        if out.insert(key, inode).is_some() {
            let error = Error::InvalidProto(ProtoFault::DuplicateInodeKey { key: copy });
            proof {
                assert(inode_keys_in(before).to_set().contains(keys[n]));
                assert(inode_keys_in(before).contains(entries@[n].key@));
                assert(inodes_stop(entries@, n, error));
                let m = choose|m: int| 0 <= m < n && keys.take(n)[m] == keys[n];
                assert(keys[m] == keys[n]);
            }
            return Err(error);
        }
        proof {
            let next = entries@.take(n + 1);
            assert(inode_keys_in(next) =~= keys.take(n + 1));
            let grown = keys.take(n + 1);
            assert forall|a: int, b: int| 0 <= a < b < grown.len() implies grown[a] != grown[b] by {
                if b < n {
                    assert(keys.take(n)[a] != keys.take(n)[b]);
                } else {
                    assert(keys.take(n).to_set().contains(keys.take(n)[a]));
                }
            }
            assert forall|a: int| 0 <= a < next.len() implies inode_entry_parses(
                #[trigger] next[a],
            ) by {
                if a < n {
                    assert(next[a] == before[a]);
                }
            }
        }
        i += 1;
    }
    assert(entries@.take(i as int) =~= entries@);
    Ok(out)
}

/// `entry` stands for the inode under a path.
pub open spec fn inode_sent(key: Path, inode: Inode, entry: pb::InodeEntry) -> bool {
    path::valid_path(key) && entry.key@ == key && entry.inode == Some(inode_message(inode))
}

/// `entries` stand for a state, in the order of its paths.
pub open spec fn inodes_sent(state: State, entries: Seq<pb::InodeEntry>) -> bool {
    let keys = collections::sorted::<Key>(state.dom());
    &&& state.dom().finite()
    &&& entries.len() == keys.len()
    &&& forall|i: int|
        0 <= i < keys.len() ==> inode_sent(keys[i], state[keys[i]], #[trigger] entries[i])
}

pub fn inode_entries_to_proto(entries: &OrdMap<Key, Inode>) -> (r: Vec<pb::InodeEntry>)
    ensures
        inodes_sent(entries@, r@),
{
    let n = entries.len();
    let ghost order = entries.ordered();
    let mut out: Vec<pb::InodeEntry> = Vec::new();
    let mut i: usize = 0;
    while i < n
        invariant
            i <= n,
            n == order.len(),
            order == entries.ordered(),
            out.len() == i,
            forall|j: int|
                0 <= j < i ==> inode_sent(order[j], entries@[order[j]], #[trigger] out@[j]),
        decreases n - i,
    {
        let key = entries.key_at(i);
        let inode = inode_to_proto(entries.value_at(i));
        out.push(pb::InodeEntry { key: key.to_text(), inode: Some(inode) });
        i += 1;
    }
    out
}

proof fn lemma_inodes_in(entries: Seq<pb::InodeEntry>, i: int)
    requires
        0 <= i < entries.len(),
        inode_keys_in(entries).no_duplicates(),
    ensures
        inodes_in(entries).contains_key(entries[i].key@),
        inodes_in(entries)[entries[i].key@] == inode_of(entries[i].inode->0),
    decreases entries.len(),
{
    let n = entries.len() - 1;
    let keys = inode_keys_in(entries);
    if i < n {
        assert(keys[i] != keys[n]);
        let front = entries.drop_last();
        assert(inode_keys_in(front) =~= keys.take(n));
        lemma_inodes_in(front, i);
        assert(front[i] == entries[i]);
    }
}

/// A state that is sent is read back unchanged.
pub proof fn lemma_inodes_round_trip(state: State, entries: Seq<pb::InodeEntry>)
    requires
        inodes_sent(state, entries),
    ensures
        inodes_parse(entries),
        inodes_in(entries) == state,
{
    let order = collections::sorted::<Key>(state.dom());
    collections::lemma_sorted_of_finite::<Key>(state.dom());
    let keys = inode_keys_in(entries);
    assert forall|i: int| 0 <= i < order.len() implies keys[i] == order[i] by {
        assert(inode_sent(order[i], state[order[i]], entries[i]));
    }
    assert(keys =~= order);
    assert forall|a: int, b: int| 0 <= a < b < keys.len() implies keys[a] != keys[b] by {
        assert(<Key as SortKey>::before(order[a], order[b]));
        <Key as SortKey>::before_irreflexive(order[a]);
    }
    assert forall|i: int| 0 <= i < entries.len() implies inode_entry_parses(
        #[trigger] entries[i],
    ) by {
        assert(inode_sent(order[i], state[order[i]], entries[i]));
    }
    lemma_inodes_dom(entries);
    assert forall|k: Path| #[trigger] state.contains_key(k) implies inodes_in(entries)[k]
        == state[k] by {
        assert(order.to_set().contains(k));
        let i = choose|i: int| 0 <= i < order.len() && order[i] == k;
        assert(inode_sent(order[i], state[order[i]], entries[i]));
        lemma_inodes_in(entries, i);
    }
    assert(inodes_in(entries) =~= state);
}

/// A message holds a write.
pub open spec fn write_parses(entry: pb::WriteEntry) -> bool {
    &&& path::valid_path(entry.key@)
    &&& match entry.value {
        Some(pb::write_entry::Value::Inode(inode)) => inode_parses(Some(inode)),
        Some(pb::write_entry::Value::Delete(_)) => true,
        None => false,
    }
}

/// The write in a message.
pub open spec fn write_in(entry: pb::WriteEntry) -> WriteOpView {
    match entry.value {
        Some(pb::write_entry::Value::Inode(inode)) => WriteOpView::Put {
            key: entry.key@,
            value: inode_of(inode),
        },
        _ => WriteOpView::Delete { key: entry.key@ },
    }
}

/// Why a message holds no write: the key is looked at first.
pub open spec fn write_fault(entry: pb::WriteEntry, error: Error) -> bool {
    match error {
        Error::InvalidPath(text) => !path::valid_path(entry.key@) && text@ == entry.key@,
        _ => {
            &&& path::valid_path(entry.key@)
            &&& match entry.value {
                None => error == Error::InvalidProto(ProtoFault::MissingWriteValue),
                Some(pb::write_entry::Value::Inode(inode)) => inode_fault(Some(inode), error),
                Some(pb::write_entry::Value::Delete(_)) => false,
            }
        },
    }
}

/// `n` is the place of the first of `entries` that is no write.
pub open spec fn writes_stop(entries: Seq<pb::WriteEntry>, n: int, error: Error) -> bool {
    &&& 0 <= n < entries.len()
    &&& forall|i: int| 0 <= i < n ==> write_parses(#[trigger] entries[i])
    &&& !write_parses(entries[n])
    &&& write_fault(entries[n], error)
}

/// All of `entries` are writes.
pub open spec fn writes_parse(entries: Seq<pb::WriteEntry>) -> bool {
    forall|i: int| 0 <= i < entries.len() ==> write_parses(#[trigger] entries[i])
}

/// The writes in messages.
pub open spec fn writes_in(entries: Seq<pb::WriteEntry>) -> Seq<WriteOpView> {
    entries.map_values(|e: pb::WriteEntry| write_in(e))
}

pub fn write_entries_from_proto(entries: Vec<pb::WriteEntry>) -> (r: Result<Vec<WriteOp>>)
    ensures
        match r {
            Ok(writes) => writes_parse(entries@) && model::write_views(writes@) == writes_in(
                entries@,
            ),
            Err(error) => !writes_parse(entries@) && exists|n: int| #[trigger]
                writes_stop(entries@, n, error),
        },
{
    let mut out: Vec<WriteOp> = Vec::new();
    let mut i: usize = 0;
    while i < entries.len()
        invariant
            i <= entries.len(),
            out.len() == i,
            forall|j: int| 0 <= j < i ==> write_parses(#[trigger] entries@[j]),
            forall|j: int| 0 <= j < i ==> (#[trigger] out@[j])@ == write_in(entries@[j]),
        decreases entries.len() - i,
    {
        let ghost n = i as int;
        let entry = &entries[i];
        let key = match Key::new(entry.key.clone()) {
            Ok(key) => key,
            Err(error) => {
                assert(writes_stop(entries@, n, error));
                return Err(error);
            },
        };
        match entry.value {
            None => {
                let error = Error::InvalidProto(ProtoFault::MissingWriteValue);
                assert(writes_stop(entries@, n, error));
                return Err(error);
            },
            Some(pb::write_entry::Value::Inode(inode)) => match inode_from_proto(Some(inode)) {
                Ok(value) => out.push(WriteOp::Put { key, value }),
                Err(error) => {
                    assert(writes_stop(entries@, n, error));
                    return Err(error);
                },
            },
            Some(pb::write_entry::Value::Delete(_)) => out.push(WriteOp::Delete { key }),
        }
        i += 1;
    }
    assert(model::write_views(out@) =~= writes_in(entries@));
    Ok(out)
}

/// `entry` stands for a write.
pub open spec fn write_sent(write: WriteOpView, entry: pb::WriteEntry) -> bool {
    &&& path::valid_path(write.target())
    &&& entry.key@ == write.target()
    &&& match write {
        WriteOpView::Put { value, .. } => entry.value == Some(
            pb::write_entry::Value::Inode(inode_message(value)),
        ),
        WriteOpView::Delete { .. } => entry.value == Some(
            pb::write_entry::Value::Delete(pb::Missing {  }),
        ),
    }
}

/// `entries` stand for writes, in their order.
pub open spec fn writes_sent(writes: Seq<WriteOpView>, entries: Seq<pb::WriteEntry>) -> bool {
    &&& entries.len() == writes.len()
    &&& forall|i: int| 0 <= i < writes.len() ==> write_sent(writes[i], #[trigger] entries[i])
}

pub fn write_entries_to_proto(writes: &Vec<WriteOp>) -> (r: Vec<pb::WriteEntry>)
    ensures
        writes_sent(model::write_views(writes@), r@),
{
    let ghost views = model::write_views(writes@);
    let mut out: Vec<pb::WriteEntry> = Vec::new();
    let mut i: usize = 0;
    while i < writes.len()
        invariant
            i <= writes.len(),
            views == model::write_views(writes@),
            out.len() == i,
            forall|j: int| 0 <= j < i ==> write_sent(views[j], #[trigger] out@[j]),
        decreases writes.len() - i,
    {
        assert(views[i as int] == writes@[i as int]@);
        let entry = match &writes[i] {
            WriteOp::Put { key, value } => pb::WriteEntry {
                key: key.to_text(),
                value: Some(pb::write_entry::Value::Inode(inode_to_proto(value))),
            },
            WriteOp::Delete { key } => pb::WriteEntry {
                key: key.to_text(),
                value: Some(pb::write_entry::Value::Delete(pb::Missing {  })),
            },
        };
        out.push(entry);
        i += 1;
    }
    out
}

/// Writes that are sent are read back unchanged.
pub proof fn lemma_writes_round_trip(writes: Seq<WriteOpView>, entries: Seq<pb::WriteEntry>)
    requires
        writes_sent(writes, entries),
    ensures
        writes_parse(entries),
        writes_in(entries) == writes,
{
    assert forall|i: int| 0 <= i < entries.len() implies write_parses(#[trigger] entries[i])
        && write_in(entries[i]) == writes[i] by {
        assert(write_sent(writes[i], entries[i]));
    }
    assert(writes_in(entries) =~= writes);
}

} // verus!
