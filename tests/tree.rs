use fxkv::db::lock_order;
use fxkv::keys::KeyBound;
use fxkv::state::{Index, StateBuilder};
use fxkv::tree::Tree;

fn reopen(name: &str, file: Vec<u8>) -> Tree {
    let builder = StateBuilder { file };
    let mut entries = Vec::new();
    if let Some(body) = builder.recover() {
        let value: serde_json::Value = serde_json::from_slice(&body).unwrap();
        for (key, index) in value.as_object().unwrap() {
            let offset = index.get("offset").unwrap().as_u64().unwrap();
            let length = index.get("length").unwrap().as_u64().unwrap();
            entries.push((key.clone().into_bytes(), Index { offset, length }));
        }
    }
    Tree { name: name.to_string(), state: builder.build(entries).unwrap() }
}

fn commit(tree: &mut Tree) {
    tree.commit_index().unwrap();
}

fn b(s: &str) -> Vec<u8> {
    s.as_bytes().to_vec()
}

#[test]
fn test_transaction() {
    let mut t1 = reopen("tree1", Vec::new());
    let value1 = "value1".as_bytes().to_vec();
    t1.set(b("key1"), value1.clone());
    assert_eq!(t1.get(&b("key1")), Some(value1.clone()));
    let range = t1.scan(&KeyBound::Included(b("key0")), &KeyBound::Excluded(b("key2")));
    assert_eq!(range.len(), 1);
    assert_eq!(range[0], value1.clone());
    assert_eq!(t1.remove(&b("key1")), Some(value1.clone()));
    assert_eq!(t1.get(&b("key1")), None);
    t1.set(b("key1"), value1.clone());
    commit(&mut t1);
    t1.rollback();
    assert_eq!(t1.get(&b("key1")), Some(value1.clone()));
}

#[test]
fn simple_commit_survives_reopen() {
    let mut t = reopen("t1", Vec::new());
    t.set(b("k"), b("v"));
    commit(&mut t);
    let mut t = reopen("t1", t.state.file.clone());
    assert_eq!(t.get(&b("k")), Some(b("v")));
}

#[test]
fn range_scan_half_open() {
    let mut t = reopen("t", Vec::new());
    t.set(b("key1"), b("v1"));
    t.set(b("key2"), b("v2"));
    t.set(b("key3"), b("v3"));
    commit(&mut t);
    t.rollback();
    let r = t.scan(&KeyBound::Included(b("key1")), &KeyBound::Excluded(b("key3")));
    assert_eq!(r, vec![b("v1"), b("v2")]);
    let r = t.scan(&KeyBound::Excluded(b("key1")), &KeyBound::Unbounded);
    assert_eq!(r, vec![b("v2"), b("v3")]);
    let r = t.scan(&KeyBound::Unbounded, &KeyBound::Included(b("key2")));
    assert_eq!(r, vec![b("v1"), b("v2")]);
}

#[test]
fn remove_then_get() {
    let mut t = reopen("t", Vec::new());
    t.set(b("k"), b("v"));
    assert_eq!(t.get(&b("k")), Some(b("v")));
    assert_eq!(t.remove(&b("k")), Some(b("v")));
    assert_eq!(t.get(&b("k")), None);
    commit(&mut t);
    t.rollback();
    assert_eq!(t.get(&b("k")), None);
    assert_eq!(t.remove(&b("k")), None);
}

#[test]
fn committed_value_survives_other_transactions() {
    let mut t = reopen("t", Vec::new());
    t.set(b("a"), b("1"));
    commit(&mut t);
    t.set(b("b"), b("2"));
    t.rollback();
    t.set(b("c"), b("3"));
    commit(&mut t);
    t.rollback();
    assert_eq!(t.get(&b("a")), Some(b("1")));
    assert_eq!(t.get(&b("b")), None);
    assert_eq!(t.get(&b("c")), Some(b("3")));
    let mut t = reopen("t", t.state.file.clone());
    assert_eq!(t.get(&b("a")), Some(b("1")));
    assert_eq!(t.get(&b("c")), Some(b("3")));
}

#[test]
fn rollback_discards_working_changes() {
    let mut t = reopen("t", Vec::new());
    t.set(b("k"), b("old"));
    commit(&mut t);
    t.set(b("k"), b("new"));
    assert_eq!(t.get(&b("k")), Some(b("new")));
    t.rollback();
    assert_eq!(t.get(&b("k")), Some(b("old")));
    assert!(!t.state.writer.dirty);
}

#[test]
fn overwrite_reads_latest_value_from_cache_and_file() {
    let mut t = reopen("t", Vec::new());
    let big = vec![5u8; 3000];
    t.set(b("k"), big.clone());
    assert_eq!(t.get(&b("k")), Some(big.clone()));
    assert_eq!(t.get(&b("k")), Some(big));
    t.set(b("k"), b("small"));
    assert_eq!(t.get(&b("k")), Some(b("small")));
}

#[test]
fn commit_writes_the_index_as_json() {
    let mut t = reopen("t", Vec::new());
    t.set(b("k"), b("v"));
    commit(&mut t);
    let body = StateBuilder { file: t.state.file.clone() }.recover().unwrap();
    let value: serde_json::Value = serde_json::from_slice(&body).unwrap();
    let index = value.get("k").unwrap();
    assert_eq!(index.get("offset").unwrap().as_u64(), Some(1));
    assert_eq!(index.get("length").unwrap().as_u64(), Some(1));
    let before = t.state.file.len();
    commit(&mut t);
    assert_eq!(t.state.file.len(), before);
}

#[test]
fn snapshot_is_written_before_it_is_published() {
    let mut t = reopen("t", Vec::new());
    t.set(b("k"), b("v"));
    t.write_snapshot().unwrap();
    assert!(t.state.writer.dirty);
    assert!(t.state.reader.indexes.is_empty());
    let on_disk = StateBuilder { file: t.state.file.clone() }.recover();
    assert!(on_disk.is_some());
    t.publish();
    assert!(!t.state.writer.dirty);
    assert_eq!(t.state.reader.indexes.len(), 1);
    t.rollback();
    assert_eq!(t.get(&b("k")), Some(b("v")));
}

#[test]
fn lock_order_sorts_and_dedups() {
    let names = vec![b("b"), b("a"), b("c"), b("a")];
    let order = lock_order(&names);
    assert_eq!(order, vec![1, 0, 2]);
    let forward = lock_order(&vec![b("a"), b("b")]);
    let backward = lock_order(&vec![b("b"), b("a")]);
    assert_eq!(forward, vec![0, 1]);
    assert_eq!(backward, vec![1, 0]);
    assert!(lock_order(&Vec::new()).is_empty());
}
