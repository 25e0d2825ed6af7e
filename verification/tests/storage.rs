use calvinfs_demo::collections::OrdSet;
use calvinfs_demo::error::BatchFault;
use calvinfs_demo::model::{Inode, Key, NodeKind, ReadValue, WriteOp};
use calvinfs_demo::scc::{DeltaOp, InodeIntegerField, TxDelta};
use calvinfs_demo::storage::{decode_inode, RedbInMemoryInodeStore};
use calvinfs_demo::Error;

fn key(path: &str) -> Key {
    Key::new(path.to_string()).unwrap()
}

fn keys(paths: &[&str]) -> OrdSet<Key> {
    let mut set = OrdSet::new();
    for path in paths {
        set.insert(key(path));
    }
    set
}

fn put(path: &str, value: Inode) -> WriteOp {
    WriteOp::Put { key: key(path), value }
}

fn grow(path: &str, delta: i64) -> DeltaOp {
    DeltaOp::AddIntegerField { key: key(path), field: InodeIntegerField::ChildCount, delta }
}

#[test]
fn a_new_store_holds_nothing() {
    let store = RedbInMemoryInodeStore::new().unwrap();
    assert!(store.dump().unwrap().is_empty());
    let read = store.read_many(&keys(&["/", "/a"])).unwrap();
    assert_eq!(read.len(), 2);
    assert_eq!(read.get(&key("/a")), Some(&ReadValue::Missing));
}

#[test]
fn what_was_written_is_read_back() {
    let mut store = RedbInMemoryInodeStore::new().unwrap();
    store
        .apply_writes_atomically(&vec![
            put("/b", Inode::file()),
            put("/", Inode::directory(u64::MAX)),
            put("/a", Inode::directory(258)),
        ])
        .unwrap();
    let read = store.read_many(&keys(&["/", "/a", "/c"])).unwrap();
    assert_eq!(read.get(&key("/")), Some(&ReadValue::Present(Inode::directory(u64::MAX))));
    assert_eq!(read.get(&key("/a")), Some(&ReadValue::Present(Inode::directory(258))));
    assert_eq!(read.get(&key("/c")), Some(&ReadValue::Missing));
    store
        .apply_writes_atomically(&vec![
            WriteOp::Delete { key: key("/a") },
            WriteOp::Delete { key: key("/never") },
            put("/b", Inode::directory(0)),
        ])
        .unwrap();
    let dump = store.dump().unwrap();
    assert_eq!(dump.len(), 2);
    assert_eq!(dump.key_at(0).as_str(), "/");
    assert_eq!(dump.key_at(1).as_str(), "/b");
    assert_eq!(*dump.value_at(1), Inode::directory(0));
}

#[test]
fn deltas_change_what_is_stored() {
    let mut store = RedbInMemoryInodeStore::new().unwrap();
    store.apply_writes_atomically(&vec![put("/d", Inode::directory(1))]).unwrap();
    let delta = TxDelta {
        ops: vec![
            DeltaOp::Put { key: key("/d/x"), value: Inode::file() },
            grow("/d", 2),
            grow("/d", -1),
        ],
    };
    store.apply_delta_atomically(&delta).unwrap();
    let dump = store.dump().unwrap();
    assert_eq!(dump.get(&key("/d")), Some(&Inode::directory(2)));
    assert_eq!(dump.get(&key("/d/x")), Some(&Inode::file()));
    let delta = TxDelta { ops: vec![DeltaOp::Delete { key: key("/d/x") }, grow("/d", -1)] };
    store.apply_delta_atomically(&delta).unwrap();
    assert_eq!(store.dump().unwrap().len(), 1);
}

#[test]
fn a_delta_that_does_not_fit_changes_nothing() {
    let mut store = RedbInMemoryInodeStore::new().unwrap();
    store
        .apply_writes_atomically(&vec![put("/d", Inode::directory(1)), put("/f", Inode::file())])
        .unwrap();
    let with_put = |op| TxDelta {
        ops: vec![DeltaOp::Put { key: key("/new"), value: Inode::file() }, op],
    };
    match store.apply_delta_atomically(&with_put(grow("/missing", 1))) {
        Err(Error::InvalidBatch(BatchFault::CountDeltaOnMissing { key })) => {
            assert_eq!(key.as_str(), "/missing");
        }
        _ => panic!("the delta was not refused"),
    }
    assert!(matches!(
        store.apply_delta_atomically(&with_put(grow("/f", 1))),
        Err(Error::InvalidBatch(BatchFault::CountDeltaOnFile { .. }))
    ));
    assert!(matches!(
        store.apply_delta_atomically(&with_put(grow("/d", -2))),
        Err(Error::InvalidBatch(BatchFault::CountDeltaUnderflow { .. }))
    ));
    let dump = store.dump().unwrap();
    assert_eq!(dump.len(), 2);
    assert_eq!(dump.get(&key("/d")), Some(&Inode::directory(1)));
}

#[test]
fn stored_bytes_are_read_as_documented() {
    let directory = vec![1, 0, 0, 0, 3, 0, 0, 0, 0, 0, 0, 0];
    assert_eq!(
        decode_inode(&directory).unwrap(),
        Inode { kind: NodeKind::Directory, child_count: 3 }
    );
    let mut file = vec![0; 12];
    file.push(77);
    assert_eq!(decode_inode(&file).unwrap(), Inode::file());
    assert!(matches!(decode_inode(&vec![0; 11]), Err(Error::Bincode(_))));
    let unknown = vec![2, 0, 0, 0, 0, 0, 0, 0, 0, 0, 0, 0];
    assert!(matches!(decode_inode(&unknown), Err(Error::UnknownKind { kind: 2 })));
}
