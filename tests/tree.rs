use cowtree::node::{descent_index, find_key};
use cowtree::store::{BTreeException, Node, NodeEntry, NodeReference, Record, Store, ValueReference};
use cowtree::tree::BTree;

fn page(t: &BTree, r: NodeReference) -> &Node {
    match &t.store.records[r.offset] {
        Record::Page(n) => n,
        Record::Text(_) => panic!("not a node"),
    }
}

fn text(t: &BTree, v: ValueReference) -> String {
    v.get_value(&t.store).unwrap()
}

fn entry(key: i32, offset: usize) -> NodeEntry {
    NodeEntry { key, value_reference: ValueReference { offset } }
}

#[test]
fn round_trip() {
    let mut t = BTree::new();
    t.set(7, "seven".to_string());
    assert_eq!(t.get(7), Ok("seven".to_string()));
    t.set(-3, "minus".to_string());
    assert_eq!(t.get(-3), Ok("minus".to_string()));
    assert_eq!(t.get(7), Ok("seven".to_string()));
}

#[test]
fn update_keeps_one_entry() {
    let mut t = BTree::new();
    t.set(5, "v1".to_string());
    t.set(5, "v2".to_string());
    assert_eq!(t.get(5), Ok("v2".to_string()));
    assert_eq!(page(&t, t.root).node_entries.len(), 1);
}

#[test]
fn absent_before_set() {
    let mut t = BTree::new();
    assert_eq!(t.get(1), Err(BTreeException::ElementNotFound));
    t.set(2, "b".to_string());
    assert_eq!(t.get(1), Err(BTreeException::ElementNotFound));
    assert_eq!(t.get(3), Err(BTreeException::ElementNotFound));
}

#[test]
fn any_insertion_order() {
    let orders: Vec<Vec<i32>> = vec![
        vec![1, 2, 3, 4, 5, 6, 7, 8, 9, 10],
        vec![10, 9, 8, 7, 6, 5, 4, 3, 2, 1],
        vec![5, 1, 9, 3, 7, 2, 8, 4, 10, 6],
        vec![4, 8, 2, 10, 6, 1, 9, 3, 7, 5],
    ];
    for order in orders {
        let mut t = BTree::new();
        for k in &order {
            t.set(*k, format!("v{}", k));
        }
        for k in 1..=10 {
            assert_eq!(t.get(k), Ok(format!("v{}", k)));
        }
        assert_eq!(t.get(0), Err(BTreeException::ElementNotFound));
        assert_eq!(t.get(11), Err(BTreeException::ElementNotFound));
    }
}

#[test]
fn many_keys() {
    let mut t = BTree::new();
    for k in 0..200 {
        let key = (k * 37) % 200 - 100;
        t.set(key, format!("{}", key));
    }
    for key in -100..100 {
        assert_eq!(t.get(key), Ok(format!("{}", key)));
    }
}

#[test]
fn split_shape() {
    let mut t = BTree::new();
    t.set(1, "a".to_string());
    t.set(2, "b".to_string());
    t.set(3, "c".to_string());
    let root = page(&t, t.root);
    assert_eq!(root.node_entries.len(), 1);
    assert_eq!(root.node_entries[0].key, 2);
    assert_eq!(text(&t, root.node_entries[0].value_reference), "b");
    assert_eq!(root.children.len(), 2);
    let left = page(&t, root.children[0].unwrap());
    let right = page(&t, root.children[1].unwrap());
    assert_eq!(left.node_entries.len(), 1);
    assert_eq!(left.node_entries[0].key, 1);
    assert_eq!(text(&t, left.node_entries[0].value_reference), "a");
    assert!(left.children.is_empty());
    assert_eq!(right.node_entries.len(), 1);
    assert_eq!(right.node_entries[0].key, 3);
    assert_eq!(text(&t, right.node_entries[0].value_reference), "c");
    assert!(right.children.is_empty());
    assert_eq!(t.get(1), Ok("a".to_string()));
    assert_eq!(t.get(2), Ok("b".to_string()));
    assert_eq!(t.get(3), Ok("c".to_string()));
}

#[test]
fn insert_after_split() {
    let mut t = BTree::new();
    t.set(1, "a".to_string());
    t.set(2, "b".to_string());
    t.set(3, "c".to_string());
    t.set(4, "d".to_string());
    assert_eq!(t.get(4), Ok("d".to_string()));
    assert_eq!(t.get(2), Ok("b".to_string()));
    assert_eq!(t.get(1), Ok("a".to_string()));
    assert_eq!(t.get(3), Ok("c".to_string()));
}

#[test]
fn rollback_forgets() {
    let mut t = BTree::new();
    t.set(1, "kept".to_string());
    t.begin_transaction();
    t.set(2, "lost".to_string());
    t.set(1, "changed".to_string());
    assert_eq!(t.get(2), Ok("lost".to_string()));
    t.rollback_transaction();
    assert_eq!(t.get(2), Err(BTreeException::ElementNotFound));
    assert_eq!(t.get(1), Ok("kept".to_string()));
    assert!(!t.is_in_transaction);
}

#[test]
fn commit_survives_reload() {
    let mut t = BTree::new();
    t.begin_transaction();
    t.set(9, "nine".to_string());
    let before = t.committed;
    assert_ne!(before, t.root);
    t.end_transaction();
    assert_eq!(t.committed, t.root);
    let BTree { store, committed, .. } = t;
    let fresh = BTree::init(store, Some(committed)).unwrap();
    assert_eq!(fresh.get(9), Ok("nine".to_string()));
}

#[test]
fn uncommitted_lost_on_reload() {
    let mut t = BTree::new();
    t.set(1, "one".to_string());
    t.begin_transaction();
    t.set(2, "two".to_string());
    let BTree { store, committed, .. } = t;
    let fresh = BTree::init(store, Some(committed)).unwrap();
    assert_eq!(fresh.get(1), Ok("one".to_string()));
    assert_eq!(fresh.get(2), Err(BTreeException::ElementNotFound));
}

#[test]
fn clear_forgets_all() {
    let mut t = BTree::new();
    for k in 1..=8 {
        t.set(k, format!("{}", k));
    }
    t.clear();
    for k in 1..=8 {
        assert_eq!(t.get(k), Err(BTreeException::ElementNotFound));
    }
    assert_eq!(t.committed, t.root);
}

#[test]
fn clear_in_transaction_is_deferred() {
    let mut t = BTree::new();
    t.set(1, "one".to_string());
    t.begin_transaction();
    t.clear();
    assert_eq!(t.get(1), Err(BTreeException::ElementNotFound));
    t.rollback_transaction();
    assert_eq!(t.get(1), Ok("one".to_string()));
}

#[test]
fn init_without_pointer_is_empty() {
    let t = BTree::init(Store::new(), None).unwrap();
    assert_eq!(t.get(0), Err(BTreeException::ElementNotFound));
    assert_eq!(t.store.len(), 1);
}

#[test]
fn init_refuses_bad_pointer() {
    let mut store = Store::new();
    assert_eq!(store.push_record(Record::Text("x".to_string())), Ok(()));
    let r = BTree::init(store, Some(NodeReference { offset: 0 }));
    assert_eq!(r.err(), Some(BTreeException::CorruptRecord));
    let r = BTree::init(Store::new(), Some(NodeReference { offset: 4 }));
    assert_eq!(r.err(), Some(BTreeException::CorruptRecord));
}

#[test]
fn push_record_checks_nodes() {
    let mut store = Store::new();
    assert_eq!(store.push_record(Record::Text("a".to_string())), Ok(()));
    assert_eq!(store.push_record(Record::Text("b".to_string())), Ok(()));
    let forward = Node { node_entries: vec![entry(1, 5)], children: vec![] };
    assert_eq!(store.push_record(Record::Page(forward)), Err(BTreeException::CorruptRecord));
    let unsorted = Node { node_entries: vec![entry(2, 0), entry(1, 1)], children: vec![] };
    assert_eq!(store.push_record(Record::Page(unsorted)), Err(BTreeException::CorruptRecord));
    let wrong_kind = Node {
        node_entries: vec![entry(1, 0)],
        children: vec![Some(NodeReference { offset: 1 }), None],
    };
    assert_eq!(store.push_record(Record::Page(wrong_kind)), Err(BTreeException::CorruptRecord));
    let good = Node { node_entries: vec![entry(1, 0), entry(2, 1)], children: vec![] };
    assert_eq!(store.push_record(Record::Page(good)), Ok(()));
    assert_eq!(store.len(), 3);
    let t = BTree::init(store, Some(NodeReference { offset: 2 })).unwrap();
    assert_eq!(t.get(1), Ok("a".to_string()));
    assert_eq!(t.get(2), Ok("b".to_string()));
}

#[test]
fn scans_pick_first_position() {
    let e = vec![entry(10, 0), entry(20, 0), entry(30, 0)];
    assert_eq!(find_key(&e, 20), 1);
    assert_eq!(find_key(&e, 25), 3);
    assert_eq!(descent_index(&e, 5), 0);
    assert_eq!(descent_index(&e, 10), 1);
    assert_eq!(descent_index(&e, 25), 2);
    assert_eq!(descent_index(&e, 35), 3);
}

#[test]
fn split_me_writes_halves() {
    let mut store = Store::new();
    let a = ValueReference::new(&mut store, "a".to_string());
    let b = ValueReference::new(&mut store, "b".to_string());
    let c = ValueReference::new(&mut store, "c".to_string());
    let n = Node {
        node_entries: vec![
            NodeEntry { key: 1, value_reference: a },
            NodeEntry { key: 2, value_reference: b },
            NodeEntry { key: 3, value_reference: c },
        ],
        children: vec![],
    };
    assert!(n.is_full() && n.is_leaf() && !n.is_empty());
    let sp = n.split_me(&mut store);
    assert_eq!(sp.top.key, 2);
    assert_eq!(sp.left_child.offset, 3);
    assert_eq!(sp.right_child.offset, 4);
    let left = sp.left_child.get_value(&store);
    assert_eq!(left.node_entries[0].key, 1);
    assert_eq!(left.get_entry(&store, 1), Ok("a".to_string()));
    let right = sp.right_child.get_value(&store);
    assert_eq!(right.get_entry(&store, 3), Ok("c".to_string()));
    assert_eq!(right.get_entry(&store, 1), Err(BTreeException::ElementNotFound));
}

#[test]
fn insert_entry_returns_new_version() {
    let mut store = Store::new();
    let empty = NodeReference::new(&mut store).get_value(&store);
    assert!(empty.is_empty());
    let one = empty.insert_entry(&mut store, 4, "four".to_string());
    assert_eq!(one.get_entry(&store, 4), Ok("four".to_string()));
    assert_eq!(empty.get_entry(&store, 4), Err(BTreeException::ElementNotFound));
    let r = NodeReference::of(&mut store, one);
    let back = r.get_value(&store);
    assert_eq!(back.node_entries[0].key, 4);
}

#[test]
fn init_refuses_misordered_tree() {
    let mut store = Store::new();
    assert_eq!(store.push_record(Record::Text("a".to_string())), Ok(()));
    assert_eq!(store.push_record(Record::Text("b".to_string())), Ok(()));
    let leaf = Node { node_entries: vec![entry(9, 0)], children: vec![] };
    assert_eq!(store.push_record(Record::Page(leaf)), Ok(()));
    let parent = Node {
        node_entries: vec![entry(5, 1)],
        children: vec![Some(NodeReference { offset: 2 }), None],
    };
    assert_eq!(store.push_record(Record::Page(parent)), Ok(()));
    let r = BTree::init(store, Some(NodeReference { offset: 3 }));
    assert_eq!(r.err(), Some(BTreeException::CorruptRecord));
}

#[test]
fn init_accepts_ordered_tree() {
    let mut store = Store::new();
    assert_eq!(store.push_record(Record::Text("a".to_string())), Ok(()));
    assert_eq!(store.push_record(Record::Text("b".to_string())), Ok(()));
    let leaf = Node { node_entries: vec![entry(1, 0)], children: vec![] };
    assert_eq!(store.push_record(Record::Page(leaf)), Ok(()));
    let parent = Node {
        node_entries: vec![entry(5, 1)],
        children: vec![Some(NodeReference { offset: 2 }), None],
    };
    assert_eq!(store.push_record(Record::Page(parent)), Ok(()));
    let mut t = BTree::init(store, Some(NodeReference { offset: 3 })).unwrap();
    assert_eq!(t.get(1), Ok("a".to_string()));
    assert_eq!(t.get(5), Ok("b".to_string()));
    t.set(7, "c".to_string());
    assert_eq!(t.get(7), Ok("c".to_string()));
    assert_eq!(t.get(1), Ok("a".to_string()));
}

#[test]
fn insert_into_empty_node_gives_leaf() {
    let mut store = Store::new();
    let empty = NodeReference::new(&mut store).get_value(&store);
    let n = empty.insert_entry(&mut store, 5, "x".to_string());
    assert!(n.children.is_empty());
    assert_eq!(n.node_entries.len(), 1);
    assert_eq!(n.node_entries[0].key, 5);
    assert_eq!(n.node_entries[0].value_reference.get_value(&store), Some("x".to_string()));
}

#[test]
fn clear_leaves_empty_root() {
    let mut t = BTree::new();
    t.set(1, "a".to_string());
    let before = t.store.len();
    t.clear();
    assert_eq!(t.root.offset, before);
    let root = page(&t, t.root);
    assert!(root.node_entries.is_empty() && root.children.is_empty());
}
