use calvinfs_demo::collections::{OrdMap, OrdSet};
use calvinfs_demo::error::BatchFault;
use calvinfs_demo::model::{parent_key, FsOp, Inode, Key, NodeKind, WriteOp};
use calvinfs_demo::workload::metadata_workload;
use calvinfs_demo::Error;

fn key(path: &str) -> Key {
    Key::new(path.to_string()).unwrap()
}

fn refused(path: &str) -> bool {
    matches!(Key::new(path.to_string()), Err(Error::InvalidPath(text)) if text == path)
}

#[test]
fn paths_are_checked() {
    for path in ["/", "/a", "/a/b", "/dir_1/file.txt", "/\u{e9}/\u{4e16}"] {
        assert_eq!(key(path).as_str(), path);
    }
    for path in ["", "a", "a/b", "/a/", "//", "//a", "/a//b", "/.", "/..", "/a/./b", "/a/.."] {
        assert!(refused(path), "{}", path);
    }
    assert_eq!(key("/a/.b").as_str(), "/a/.b");
    assert_eq!(key("/a/...").as_str(), "/a/...");
}

#[test]
fn parents_are_found() {
    assert_eq!(key("/a").parent().unwrap().as_str(), "/");
    assert_eq!(key("/a/b/c").parent().unwrap().as_str(), "/a/b");
    assert!(matches!(key("/").parent(), Err(Error::InvalidPath(_))));
    assert_eq!(parent_key(&key("/x/y")).unwrap().as_str(), "/x");
    assert!(key("/").is_root());
    assert!(Key::root().equals(&key("/")));
    assert!(!key("/a").is_root());
    assert_eq!(key("/a/b").to_text(), "/a/b");
}

#[test]
fn inodes_and_writes_hold_what_they_were_given() {
    assert_eq!(Inode::file(), Inode { kind: NodeKind::File, child_count: 0 });
    assert_eq!(Inode::directory(7), Inode { kind: NodeKind::Directory, child_count: 7 });
    assert_eq!(WriteOp::Delete { key: key("/a") }.key().as_str(), "/a");
    let put = WriteOp::Put { key: key("/b"), value: Inode::file() };
    assert_eq!(put.key().as_str(), "/b");
    assert_eq!(put.clone().key().as_str(), "/b");
}

#[test]
fn sets_keep_their_keys_in_order() {
    let mut set: OrdSet<Key> = OrdSet::new();
    assert!(set.is_empty());
    for path in ["/b", "/", "/a/z", "/a", "/b"] {
        set.insert(key(path));
    }
    assert_eq!(set.len(), 4);
    let listed: Vec<&str> = (0..set.len()).map(|i| set.at(i).as_str()).collect();
    assert_eq!(listed, vec!["/", "/a", "/a/z", "/b"]);
    assert!(!set.insert(key("/a")));
    assert!(set.remove(&key("/a")));
    assert!(!set.remove(&key("/a")));
    assert!(!set.contains(&key("/a")));
    let mut other: OrdSet<Key> = OrdSet::new();
    other.insert(key("/b"));
    assert!(other.is_subset(&set));
    assert!(!set.is_subset(&other));
    assert!(!set.is_disjoint(&other));
    assert_eq!(set.difference(&other).len(), 2);
    other.extend(&set);
    assert!(other.same_as(&set));
    let mut numbers: OrdSet<u64> = OrdSet::new();
    for n in [5u64, 1, 3] {
        numbers.insert(n);
    }
    assert_eq!((0..3).map(|i| *numbers.at(i)).collect::<Vec<u64>>(), vec![1, 3, 5]);
}

#[test]
fn maps_keep_their_bindings() {
    let mut map: OrdMap<Key, u64> = OrdMap::new();
    assert_eq!(map.insert(key("/b"), 2), None);
    assert_eq!(map.insert(key("/a"), 1), None);
    assert_eq!(map.insert(key("/b"), 3), Some(2));
    assert_eq!(map.len(), 2);
    assert_eq!(map.get(&key("/a")), Some(&1));
    assert_eq!(map.get(&key("/c")), None);
    assert!(map.contains_key(&key("/b")));
    assert_eq!(map.key_at(0).as_str(), "/a");
    assert_eq!(*map.value_at(1), 3);
    assert_eq!(map.key_set().len(), 2);
    let copy = map.clone();
    assert_eq!(map.remove(&key("/a")), Some(1));
    assert_eq!(map.remove(&key("/a")), None);
    assert_eq!(copy.len(), 2);
    assert!(!map.is_empty());
}

fn text(op: &FsOp) -> String {
    match op {
        FsOp::Create { path } => format!("create {}", path.as_str()),
        FsOp::Mkdir { path } => format!("mkdir {}", path.as_str()),
        _ => panic!("unexpected operation"),
    }
}

#[test]
fn the_workload_makes_directories_then_files() {
    let batches = metadata_workload(2, 4).unwrap();
    let texts: Vec<Vec<String>> = batches.iter().map(|b| b.iter().map(text).collect()).collect();
    assert_eq!(texts[0], vec!["mkdir /", "mkdir /dir_0", "mkdir /dir_1", "mkdir /dir_2"]);
    assert_eq!(
        texts[1],
        vec![
            "create /dir_0/b1_file_0",
            "create /dir_1/b1_file_1",
            "create /dir_2/b1_file_2",
            "create /dir_0/b1_file_3",
        ]
    );
    let first = &metadata_workload(1, 512).unwrap()[0];
    assert_eq!(first.len(), 512);
    assert_eq!(text(&first[256]), "mkdir /dir_255");
    assert_eq!(text(&first[257]), "create /dir_0/b0_file_0");
    assert_eq!(text(&first[511]), "create /dir_254/b0_file_254");
}

#[test]
fn the_workload_handles_its_edges() {
    assert!(metadata_workload(0, 0).unwrap().is_empty());
    assert!(metadata_workload(0, 5).unwrap().is_empty());
    assert!(matches!(
        metadata_workload(1, 0),
        Err(Error::InvalidBatch(BatchFault::NoBatchSize))
    ));
    let batches = metadata_workload(3, 1).unwrap();
    assert_eq!(batches.len(), 3);
    assert_eq!(text(&batches[0][0]), "mkdir /");
    assert_eq!(text(&batches[2][0]), "create /dir_0/b2_file_0");
}

#[test]
fn errors_say_who_is_to_blame() {
    assert!(Error::InvalidPath("x".to_string()).is_invalid_argument());
    assert!(Error::BatchTooLarge { size: 2, max: 1 }.is_invalid_argument());
    assert!(Error::InvalidBatch(BatchFault::NoBatchSize).is_invalid_argument());
    assert!(!Error::MissingPeer(1).is_invalid_argument());
    assert!(!Error::MissingBatch(1).is_invalid_argument());
    assert!(!Error::MissingTx(1).is_invalid_argument());
    assert!(!Error::UnknownKind { kind: 9 }.is_invalid_argument());
}
