//! The tree controller: the current root, the committed root pointer and
//! the transaction flag.
use vstd::prelude::*;
use crate::store::{extends, record_ok, records_ok, BTreeException, NodeReference, Record, Store};
use crate::node::{
    leaf_inserted,
    key_ceiling, key_floor, lemma_bound_raise, lemma_lookup_extend, lemma_ordered_extend, lookup,
    node_lookup, ordered, reports,
};

verus! {

/// A tree over a log. `root` names the current version; `committed` is the
/// root pointer, the version that a fresh start would see.
pub struct BTree {
    pub store: Store,
    pub root: NodeReference,
    pub committed: NodeReference,
    pub is_in_transaction: bool,
}

/// `r` names a node record of the log.
pub open spec fn names_node(records: Seq<Record>, r: NodeReference) -> bool {
    (r.offset as int) < records.len() && records[r.offset as int] is Page
}

/// `r` names a node record with no entries and no slots.
pub open spec fn empty_root(records: Seq<Record>, r: NodeReference) -> bool {
    &&& names_node(records, r)
    &&& records[r.offset as int]->Page_0.node_entries@.len() == 0
    &&& records[r.offset as int]->Page_0.children@.len() == 0
}

/// `r` names a node record of the log that is a search tree over all keys.
pub open spec fn tree_ok(records: Seq<Record>, r: NodeReference) -> bool {
    &&& names_node(records, r)
    &&& ordered(
        records,
        records[r.offset as int]->Page_0,
        key_floor(),
        key_ceiling(),
        r.offset as nat,
    )
}

/// Appending keeps a tree that was in the log a search tree.
pub proof fn lemma_tree_ok_extend(a: Seq<Record>, b: Seq<Record>, r: NodeReference)
    requires
        extends(a, b),
        tree_ok(a, r),
    ensures
        tree_ok(b, r),
{
    let at = r.offset as int;
    assert(b[at] == b.subrange(0, a.len() as int)[at]);
    lemma_ordered_extend(a, b, a[at]->Page_0, key_floor(), key_ceiling(), at as nat);
}

/// Appending keeps every lookup from an older node record unchanged.
pub proof fn lemma_lookup_at_extend(a: Seq<Record>, b: Seq<Record>, at: int, key: i32)
    requires
        records_ok(a),
        extends(a, b),
        0 <= at < a.len(),
        a[at] is Page,
    ensures
        lookup(b, at, key) == lookup(a, at, key),
{
    assert(b[at] == b.subrange(0, a.len() as int)[at]);
    assert(record_ok(a, at));
    lemma_lookup_extend(a, b, a[at]->Page_0, key, at as nat);
}

impl BTree {
    pub open spec fn wf(&self) -> bool {
        &&& self.store.wf()
        &&& tree_ok(self.store.records@, self.root)
        &&& tree_ok(self.store.records@, self.committed)
        &&& !self.is_in_transaction ==> self.committed == self.root
    }

    /// What `get(key)` returns on this tree.
    pub open spec fn lookup(&self, key: i32) -> Option<Seq<char>> {
        lookup(self.store.records@, self.root.offset as int, key)
    }

    /// What `get(key)` returns after a fresh start from the root pointer.
    pub open spec fn committed_lookup(&self, key: i32) -> Option<Seq<char>> {
        lookup(self.store.records@, self.committed.offset as int, key)
    }

    /// `b` is `a` after `set(key, value)`.
    pub open spec fn set_done(a: BTree, b: BTree, key: i32, value: Seq<char>) -> bool {
        &&& b.wf()
        &&& extends(a.store.records@, b.store.records@)
        &&& b.lookup(key) == Some(value)
        &&& b.root.offset >= a.store.records@.len()
        &&& a.store.records@[a.root.offset as int]->Page_0.children@.len() == 0 ==> leaf_inserted(
            a.store.records@,
            b.store.records@,
            a.store.records@[a.root.offset as int]->Page_0,
            key,
            b.store.records@[b.root.offset as int]->Page_0,
        )
        &&& forall|k: i32| k != key ==> #[trigger] b.lookup(k) == a.lookup(k)
        &&& b.is_in_transaction == a.is_in_transaction
        &&& a.is_in_transaction ==> b.committed == a.committed
    }

    /// `b` is `a` after `begin_transaction()`.
    pub open spec fn begin_done(a: BTree, b: BTree) -> bool {
        &&& b.wf()
        &&& b.store == a.store
        &&& b.root == a.root
        &&& b.committed == a.committed
        &&& b.is_in_transaction
    }

    /// `b` is `a` after `end_transaction()`.
    pub open spec fn end_done(a: BTree, b: BTree) -> bool {
        &&& b.wf()
        &&& b.store == a.store
        &&& b.root == a.root
        &&& b.committed == a.root
        &&& !b.is_in_transaction
    }

    /// `b` is `a` after `rollback_transaction()`.
    pub open spec fn rollback_done(a: BTree, b: BTree) -> bool {
        &&& b.wf()
        &&& b.store == a.store
        &&& b.root == a.committed
        &&& b.committed == a.committed
        &&& !b.is_in_transaction
    }

    /// `t` was started afresh from `store`, whose root pointer is `pointer`.
    pub open spec fn init_done(store: Store, pointer: NodeReference, t: BTree) -> bool {
        &&& t.wf()
        &&& t.store == store
        &&& t.root == pointer
        &&& t.committed == pointer
        &&& !t.is_in_transaction
    }

    /// A tree over a fresh log, holding no key.
    pub fn new() -> (r: BTree)
        ensures
            r.wf(),
            !r.is_in_transaction,
            empty_root(r.store.records@, r.root),
            forall|key: i32| r.lookup(key) is None,
    {
        let mut store = Store::new();
        let root = NodeReference::new(&mut store);
        BTree { store, root, committed: root, is_in_transaction: false }
    }

    /// Starts from a log and its root pointer; without a pointer, an empty
    /// root is written and committed. A pointer that names no node of the
    /// log is refused.
    pub fn init(store: Store, pointer: Option<NodeReference>) -> (r: Result<BTree, BTreeException>)
        requires
            store.wf(),
        ensures
            match pointer {
                Some(p) => match r {
                    Ok(t) => tree_ok(store.records@, p) && BTree::init_done(store, p, t),
                    Err(x) => !tree_ok(store.records@, p) && x == BTreeException::CorruptRecord,
                },
                None => match r {
                    Ok(t) => {
                        &&& t.wf()
                        &&& !t.is_in_transaction
                        &&& extends(store.records@, t.store.records@)
                        &&& t.root.offset == store.records@.len()
                        &&& empty_root(t.store.records@, t.root)
                        &&& forall|key: i32| t.lookup(key) is None
                    },
                    Err(_) => false,
                },
            },
    {
        match pointer {
            Some(p) => {
                if p.offset < store.records.len() {
                    match &store.records[p.offset] {
                        Record::Page(n) => {
                            assert(record_ok(store.records@, p.offset as int));
                            if !n.check_ordered(&store, i32::MIN as i64 - 1, i32::MAX as i64 + 1, p.offset) {
                                return Err(BTreeException::CorruptRecord);
                            }
                        },
                        Record::Text(_) => {
                            return Err(BTreeException::CorruptRecord);
                        },
                    }
                    Ok(BTree { store, root: p, committed: p, is_in_transaction: false })
                } else {
                    Err(BTreeException::CorruptRecord)
                }
            },
            None => {
                let mut store = store;
                let root = NodeReference::new(&mut store);
                Ok(BTree { store, root, committed: root, is_in_transaction: false })
            },
        }
    }

    /// The value stored under `key`, or `ElementNotFound`.
    pub fn get(&self, key: i32) -> (r: Result<String, BTreeException>)
        requires
            self.wf(),
        ensures
            reports(self.lookup(key), r),
    {
        match &self.store.records[self.root.offset] {
            Record::Page(n) => {
                proof {
                    assert(record_ok(self.store.records@, self.root.offset as int));
                    crate::store::lemma_fits_extend(
                        *n,
                        self.store.records@.subrange(0, self.root.offset as int),
                        self.store.records@,
                    );
                }
                n.get_below(&self.store, key, self.root.offset)
            },
            Record::Text(_) => Err(BTreeException::CorruptRecord),
        }
    }

    /// Stores `value` under `key` as a new version of the tree, committed
    /// at once outside a transaction.
    pub fn set(&mut self, key: i32, value: String)
        requires
            old(self).wf(),
        ensures
            BTree::set_done(*old(self), *final(self), key, value@),
    {
        let ghost s0 = self.store.records@;
        let ghost at = self.root.offset as int;
        let ghost rn = s0[at]->Page_0;
        assert(record_ok(s0, at));
        let node = self.root.get_value(&self.store);
        proof {
            crate::store::lemma_fits_extend(node, s0.subrange(0, at), s0);
            lemma_bound_raise(s0, rn, key_floor(), key_ceiling(), at as nat, s0.len() as nat);
            assert(ordered(s0, node, key_floor(), key_ceiling(), s0.len() as nat) == ordered(s0, rn, key_floor(), key_ceiling(), s0.len() as nat));
        }
        let res = node.insert_entry(&mut self.store, key, value);
        let ghost s1 = self.store.records@;
        let r = NodeReference::of(&mut self.store, res);
        let ghost s2 = self.store.records@;
        assert(s2.subrange(0, s1.len() as int) =~= s1);
        proof {
            lemma_lookup_extend(s1, s2, res, key, s1.len() as nat);
            crate::store::lemma_extends_trans(s0, s1, s2);
            lemma_tree_ok_extend(s0, s2, self.committed);
            lemma_ordered_extend(s1, s2, res, key_floor(), key_ceiling(), s1.len() as nat);
            assert(leaf_inserted(s0, s1, node, key, res) == leaf_inserted(s0, s1, rn, key, res));
            if rn.children@.len() == 0 {
                let e = rn.node_entries@;
                if crate::node::match_from(e, key, 0) == e.len() && e.len() + 1 == crate::store::MAX_NODE_SIZE {
                    let l = res.children@[0]->0.offset as int;
                    let g = res.children@[1]->0.offset as int;
                    assert(s2[l] == s2.subrange(0, s1.len() as int)[l]);
                    assert(s2[g] == s2.subrange(0, s1.len() as int)[g]);
                }
            }
            assert(s2[r.offset as int]->Page_0 == res);
            assert forall|k: i32| k != key implies #[trigger] lookup(s2, r.offset as int, k) == lookup(s0, at, k) by {
                lemma_lookup_extend(s1, s2, res, k, s1.len() as nat);
                assert(node_lookup(s0, node, k, s0.len() as nat) == node_lookup(s0, rn, k, s0.len() as nat));
            }
        }
        self.root = r;
        if !self.is_in_transaction {
            self.committed = r;
        }
    }

    pub fn begin_transaction(&mut self)
        requires
            old(self).wf(),
        ensures
            BTree::begin_done(*old(self), *final(self)),
    {
        self.is_in_transaction = true;
    }

    /// Commits: the root pointer takes the current root.
    pub fn end_transaction(&mut self)
        requires
            old(self).wf(),
        ensures
            BTree::end_done(*old(self), *final(self)),
    {
        self.is_in_transaction = false;
        self.committed = self.root;
    }

    /// Goes back to the version that the root pointer names; what was
    /// written since stays in the log, unreachable.
    pub fn rollback_transaction(&mut self)
        requires
            old(self).wf(),
        ensures
            BTree::rollback_done(*old(self), *final(self)),
            forall|key: i32| final(self).lookup(key) == old(self).committed_lookup(key),
    {
        self.is_in_transaction = false;
        self.root = self.committed;
    }

    /// Replaces the tree by an empty one, committed at once outside a
    /// transaction.
    pub fn clear(&mut self)
        requires
            old(self).wf(),
        ensures
            final(self).wf(),
            extends(old(self).store.records@, final(self).store.records@),
            final(self).is_in_transaction == old(self).is_in_transaction,
            old(self).is_in_transaction ==> final(self).committed == old(self).committed,
            final(self).root.offset == old(self).store.records@.len(),
            empty_root(final(self).store.records@, final(self).root),
            forall|key: i32| final(self).lookup(key) is None,
    {
        let ghost s0 = self.store.records@;
        let r = NodeReference::new(&mut self.store);
        proof {
            lemma_tree_ok_extend(s0, self.store.records@, self.committed);
        }
        self.root = r;
        if !self.is_in_transaction {
            self.committed = r;
        }
    }
}

/// Setting a key twice leaves the second value under it.
pub proof fn law_update(t0: BTree, t1: BTree, t2: BTree, key: i32, v1: Seq<char>, v2: Seq<char>)
    requires
        t0.wf(),
        BTree::set_done(t0, t1, key, v1),
        BTree::set_done(t1, t2, key, v2),
    ensures
        t2.lookup(key) == Some(v2),
{
}

/// A key first set inside a transaction that is rolled back is absent
/// afterwards, when the committed tree did not hold it.
pub proof fn law_rollback(
    t0: BTree,
    t1: BTree,
    t2: BTree,
    t3: BTree,
    key: i32,
    value: Seq<char>,
)
    requires
        t0.wf(),
        t0.committed_lookup(key) is None,
        BTree::begin_done(t0, t1),
        BTree::set_done(t1, t2, key, value),
        BTree::rollback_done(t2, t3),
    ensures
        t3.lookup(key) is None,
{
    lemma_lookup_at_extend(
        t1.store.records@,
        t2.store.records@,
        t1.committed.offset as int,
        key,
    );
}

/// A key set inside a committed transaction is found by a fresh start from
/// the log and the root pointer.
pub proof fn law_commit(
    t0: BTree,
    t1: BTree,
    t2: BTree,
    t3: BTree,
    t4: BTree,
    key: i32,
    value: Seq<char>,
)
    requires
        t0.wf(),
        BTree::begin_done(t0, t1),
        BTree::set_done(t1, t2, key, value),
        BTree::end_done(t2, t3),
        BTree::init_done(t3.store, t3.committed, t4),
    ensures
        t4.lookup(key) == Some(value),
{
}

/// Distinct keys set one after another, in whatever order, are each found
/// with their value once all are set.
pub proof fn law_any_order(ts: Seq<BTree>, keys: Seq<i32>, vals: Seq<Seq<char>>)
    requires
        ts.len() == keys.len() + 1,
        vals.len() == keys.len(),
        ts[0].wf(),
        forall|i: int, j: int| 0 <= i < j < keys.len() ==> keys[i] != keys[j],
        forall|i: int| 0 <= i < keys.len() ==> BTree::set_done(#[trigger] ts[i], ts[i + 1], keys[i], vals[i]),
    ensures
        forall|i: int| 0 <= i < keys.len() ==> #[trigger] ts[keys.len() as int].lookup(keys[i]) == Some(vals[i]),
{
    assert forall|i: int| 0 <= i < keys.len() implies #[trigger] ts[keys.len() as int].lookup(keys[i]) == Some(vals[i]) by {
        lemma_kept(ts, keys, vals, i, keys.len() as int);
    }
}

/// A key set at step `i` keeps its value through every later step that sets
/// another key.
proof fn lemma_kept(ts: Seq<BTree>, keys: Seq<i32>, vals: Seq<Seq<char>>, i: int, j: int)
    requires
        ts.len() == keys.len() + 1,
        vals.len() == keys.len(),
        0 <= i < j <= keys.len(),
        forall|a: int, b: int| 0 <= a < b < keys.len() ==> keys[a] != keys[b],
        forall|a: int| 0 <= a < keys.len() ==> BTree::set_done(#[trigger] ts[a], ts[a + 1], keys[a], vals[a]),
    ensures
        ts[j].lookup(keys[i]) == Some(vals[i]),
    decreases j - i,
{
    assert(BTree::set_done(ts[j - 1], ts[j], keys[j - 1], vals[j - 1]));
    if j - 1 > i {
        lemma_kept(ts, keys, vals, i, j - 1);
        assert(keys[i] != keys[j - 1]);
    }
}

} // verus!
