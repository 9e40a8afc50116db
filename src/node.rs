//! Lookup, insertion and splitting on the nodes of the tree.
use vstd::prelude::*;
use crate::store::{
    extends, records_ok, record_ok, sorted, BTreeException, Node, NodeEntry, NodeReference, Record,
    Store, ValueReference, MAX_NODE_SIZE, lemma_fits_extend, lemma_extends_trans,
};

verus! {

/// The first position at or after `i` whose key is `key`, or the length.
pub open spec fn match_from(e: Seq<NodeEntry>, key: i32, i: int) -> int
    decreases e.len() - i,
{
    if i < 0 || i >= e.len() {
        e.len() as int
    } else if e[i].key == key {
        i
    } else {
        match_from(e, key, i + 1)
    }
}

/// The first position at or after `i` whose key is above `key`, or the
/// length: the child slot that covers `key`.
pub open spec fn descent_from(e: Seq<NodeEntry>, key: i32, i: int) -> int
    decreases e.len() - i,
{
    if i < 0 || i >= e.len() {
        e.len() as int
    } else if key < e[i].key {
        i
    } else {
        descent_from(e, key, i + 1)
    }
}

/// The text stored at position `i` of the log, if there is one.
pub open spec fn value_at(records: Seq<Record>, i: int) -> Option<Seq<char>> {
    if 0 <= i < records.len() && records[i] is Text {
        Some(records[i]->Text_0@)
    } else {
        None
    }
}

/// What a lookup of `key` finds from node `n`, following only child handles
/// below `bound`.
pub open spec fn node_lookup(records: Seq<Record>, n: Node, key: i32, bound: nat) -> Option<
    Seq<char>,
>
    decreases bound,
{
    let e = n.node_entries@;
    if e.len() == 0 {
        None
    } else if match_from(e, key, 0) < e.len() {
        value_at(records, e[match_from(e, key, 0)].value_reference.offset as int)
    } else {
        let d = descent_from(e, key, 0);
        if d < n.children@.len() && n.children@[d] is Some {
            let c = n.children@[d]->0.offset as int;
            if c < bound && c < records.len() && records[c] is Page {
                node_lookup(records, records[c]->Page_0, key, c as nat)
            } else {
                None
            }
        } else {
            None
        }
    }
}

/// What a lookup of `key` finds from the node stored at position `at`.
pub open spec fn lookup(records: Seq<Record>, at: int, key: i32) -> Option<Seq<char>> {
    if 0 <= at < records.len() && records[at] is Page {
        node_lookup(records, records[at]->Page_0, key, at as nat)
    } else {
        None
    }
}


/// The lower end of the key interval that child slot `d` covers.
pub open spec fn slot_lo(e: Seq<NodeEntry>, lo: int, d: int) -> int {
    if d <= 0 {
        lo
    } else {
        e[d - 1].key as int
    }
}

/// The upper end of the key interval that child slot `d` covers.
pub open spec fn slot_hi(e: Seq<NodeEntry>, hi: int, d: int) -> int {
    if d < e.len() {
        e[d].key as int
    } else {
        hi
    }
}

/// Node `n` is a search tree over the open key interval `(lo, hi)`: its
/// entries ascend inside it, and each child slot covers the interval between
/// the entries beside it.
pub open spec fn ordered(records: Seq<Record>, n: Node, lo: int, hi: int, bound: nat) -> bool
    decreases bound,
{
    let e = n.node_entries@;
    &&& sorted(e)
    &&& forall|i: int| 0 <= i < e.len() ==> lo < #[trigger] e[i].key < hi
    &&& forall|d: int|
        0 <= d < n.children@.len() && (#[trigger] n.children@[d]) is Some ==> {
            let c = n.children@[d]->0.offset as int;
            &&& c < bound
            &&& c < records.len()
            &&& records[c] is Page
            &&& ordered(records, records[c]->Page_0, slot_lo(e, lo, d), slot_hi(e, hi, d), c as nat)
        }
}

/// The smallest and largest bounds of the key interval of a whole tree.
pub open spec fn key_floor() -> int {
    i32::MIN as int - 1
}

pub open spec fn key_ceiling() -> int {
    i32::MAX as int + 1
}

/// Appending to the log keeps a search tree a search tree.
pub proof fn lemma_ordered_extend(a: Seq<Record>, b: Seq<Record>, n: Node, lo: int, hi: int, bound: nat)
    requires
        extends(a, b),
        bound <= a.len(),
        ordered(a, n, lo, hi, bound),
    ensures
        ordered(b, n, lo, hi, bound),
    decreases bound,
{
    let e = n.node_entries@;
    assert forall|d: int| 0 <= d < n.children@.len() && (#[trigger] n.children@[d]) is Some implies {
        let c = n.children@[d]->0.offset as int;
        &&& c < bound
        &&& c < b.len()
        &&& b[c] is Page
        &&& ordered(b, b[c]->Page_0, slot_lo(e, lo, d), slot_hi(e, hi, d), c as nat)
    } by {
        let c = n.children@[d]->0.offset as int;
        assert(b[c] == b.subrange(0, a.len() as int)[c]);
        lemma_ordered_extend(a, b, a[c]->Page_0, slot_lo(e, lo, d), slot_hi(e, hi, d), c as nat);
    }
}

/// A larger bound changes neither the order nor any lookup of a node whose
/// handles lie below the smaller one.
pub proof fn lemma_bound_raise(records: Seq<Record>, n: Node, lo: int, hi: int, b1: nat, b2: nat)
    requires
        n.refs_below(b1 as int),
        b1 <= b2,
    ensures
        ordered(records, n, lo, hi, b1) == ordered(records, n, lo, hi, b2),
        forall|k: i32| #[trigger] node_lookup(records, n, k, b1) == node_lookup(records, n, k, b2),
{
    assert(ordered(records, n, lo, hi, b1) == ordered(records, n, lo, hi, b2));
    assert forall|k: i32| #[trigger] node_lookup(records, n, k, b1) == node_lookup(records, n, k, b2) by {
        let d = descent_from(n.node_entries@, k, 0);
        lemma_descent_from(n.node_entries@, k, 0);
        if 0 <= d < n.children@.len() && n.children@[d] is Some {
            assert(n.children@[d]->0.offset < b1);
        }
        assert(node_lookup(records, n, k, b1) == node_lookup(records, n, k, b2));
    }
}

/// In ascending entries, a key that is present is found where it is.
pub proof fn lemma_match_sorted(e: Seq<NodeEntry>, k: i32, j: int)
    requires
        sorted(e),
        0 <= j < e.len(),
        e[j].key == k,
    ensures
        match_from(e, k, 0) == j,
{
    assert forall|i: int| 0 <= i < j implies e[i].key != k by {
        assert(e[i].key < e[j].key);
    }
    lemma_match_is(e, k, 0, j);
}

/// In ascending entries, the descent slot of a key is the one between the
/// entries around it.
pub proof fn lemma_descent_sorted(e: Seq<NodeEntry>, k: i32, d: int)
    requires
        sorted(e),
        0 <= d <= e.len(),
        d > 0 ==> e[d - 1].key <= k,
        d < e.len() ==> k < e[d].key,
    ensures
        descent_from(e, k, 0) == d,
{
    assert forall|i: int| 0 <= i < d implies !(k < e[i].key) by {
        if i < d - 1 {
            assert(e[i].key < e[d - 1].key);
        }
    }
    lemma_descent_is(e, k, 0, d);
}


/// What a lookup of `k` finds among entries `e` alone.
pub open spec fn leaf_find(records: Seq<Record>, e: Seq<NodeEntry>, k: i32) -> Option<Seq<char>> {
    if match_from(e, k, 0) < e.len() {
        value_at(records, e[match_from(e, k, 0)].value_reference.offset as int)
    } else {
        None
    }
}

/// A lookup in a leaf looks at its entries alone.
pub proof fn lemma_leaf_lookup(records: Seq<Record>, n: Node, k: i32, b: nat)
    requires
        n.children@.len() == 0,
    ensures
        node_lookup(records, n, k, b) == leaf_find(records, n.node_entries@, k),
{
    let e = n.node_entries@;
    lemma_match_from(e, k, 0);
    lemma_descent_from(e, k, 0);
    if e.len() == 0 {
        assert(match_from(e, k, 0) == 0);
    } else if match_from(e, k, 0) < e.len() {
    } else {
        assert(!(descent_from(e, k, 0) < n.children@.len()));
    }
}

/// Among ascending entries, `k` is found as the entry that carries it.
pub proof fn lemma_find_at(records: Seq<Record>, e: Seq<NodeEntry>, k: i32, j: int)
    requires
        sorted(e),
        0 <= j < e.len(),
        e[j].key == k,
    ensures
        leaf_find(records, e, k) == value_at(records, e[j].value_reference.offset as int),
{
    lemma_match_sorted(e, k, j);
}

/// Among entries that do not carry `k`, nothing is found.
pub proof fn lemma_find_none(records: Seq<Record>, e: Seq<NodeEntry>, k: i32)
    requires
        forall|j: int| 0 <= j < e.len() ==> (#[trigger] e[j]).key != k,
    ensures
        leaf_find(records, e, k) is None,
{
    lemma_match_is(e, k, 0, e.len() as int);
}

/// `r` reports the outcome `o` of a lookup.
pub open spec fn reports(o: Option<Seq<char>>, r: Result<String, BTreeException>) -> bool {
    match r {
        Ok(s) => o == Some(s@),
        Err(x) => o is None && x == BTreeException::ElementNotFound,
    }
}

pub proof fn lemma_match_from(e: Seq<NodeEntry>, key: i32, i: int)
    requires
        0 <= i <= e.len(),
    ensures
        i <= match_from(e, key, i) <= e.len(),
        forall|j: int| i <= j < match_from(e, key, i) ==> e[j].key != key,
        match_from(e, key, i) < e.len() ==> e[match_from(e, key, i)].key == key,
    decreases e.len() - i,
{
    if i < e.len() && e[i].key != key {
        lemma_match_from(e, key, i + 1);
    }
}

pub proof fn lemma_match_is(e: Seq<NodeEntry>, key: i32, i: int, m: int)
    requires
        0 <= i <= m <= e.len(),
        forall|j: int| i <= j < m ==> e[j].key != key,
        m < e.len() ==> e[m].key == key,
    ensures
        match_from(e, key, i) == m,
    decreases m - i,
{
    if i < m {
        lemma_match_is(e, key, i + 1, m);
    }
}

pub proof fn lemma_descent_from(e: Seq<NodeEntry>, key: i32, i: int)
    requires
        0 <= i <= e.len(),
    ensures
        i <= descent_from(e, key, i) <= e.len(),
        forall|j: int| i <= j < descent_from(e, key, i) ==> !(key < e[j].key),
        descent_from(e, key, i) < e.len() ==> key < e[descent_from(e, key, i)].key,
    decreases e.len() - i,
{
    if i < e.len() && !(key < e[i].key) {
        lemma_descent_from(e, key, i + 1);
    }
}

pub proof fn lemma_descent_is(e: Seq<NodeEntry>, key: i32, i: int, d: int)
    requires
        0 <= i <= d <= e.len(),
        forall|j: int| i <= j < d ==> !(key < e[j].key),
        d < e.len() ==> key < e[d].key,
    ensures
        descent_from(e, key, i) == d,
    decreases d - i,
{
    if i < d {
        lemma_descent_is(e, key, i + 1, d);
    }
}

/// Appending to the log leaves every lookup through older records unchanged.
pub proof fn lemma_lookup_extend(a: Seq<Record>, b: Seq<Record>, n: Node, key: i32, bound: nat)
    requires
        records_ok(a),
        extends(a, b),
        n.refs_below(bound as int),
        bound <= a.len(),
    ensures
        node_lookup(b, n, key, bound) == node_lookup(a, n, key, bound),
    decreases bound,
{
    let e = n.node_entries@;
    if e.len() > 0 {
        let m = match_from(e, key, 0);
        lemma_match_from(e, key, 0);
        if m < e.len() {
            let v = e[m].value_reference.offset as int;
            assert(b[v] == b.subrange(0, a.len() as int)[v]);
        } else {
            let d = descent_from(e, key, 0);
            if d < n.children@.len() && n.children@[d] is Some {
                let c = n.children@[d]->0.offset as int;
                if c < bound {
                    assert(b[c] == b.subrange(0, a.len() as int)[c]);
                    if a[c] is Page {
                        assert(record_ok(a, c));
                        lemma_lookup_extend(a, b, a[c]->Page_0, key, c as nat);
                    }
                }
            }
        }
    }
}

/// The first position whose key is `key`, or the length.
pub fn find_key(e: &Vec<NodeEntry>, key: i32) -> (r: usize)
    ensures
        r == match_from(e@, key, 0),
{
    let mut i: usize = 0;
    while i < e.len()
        invariant
            i <= e.len(),
            match_from(e@, key, 0) == match_from(e@, key, i as int),
        decreases e.len() - i,
    {
        if e[i].key == key {
            return i;
        }
        i = i + 1;
    }
    i
}

/// The first position whose key is above `key`, or the length.
pub fn descent_index(e: &Vec<NodeEntry>, key: i32) -> (r: usize)
    ensures
        r == descent_from(e@, key, 0),
{
    let mut i: usize = 0;
    while i < e.len()
        invariant
            i <= e.len(),
            descent_from(e@, key, 0) == descent_from(e@, key, i as int),
        decreases e.len() - i,
    {
        if key < e[i].key {
            return i;
        }
        i = i + 1;
    }
    i
}


/// The items of `v` from `lo` up to `hi`.
fn copy_range<T: Copy>(v: &Vec<T>, lo: usize, hi: usize) -> (r: Vec<T>)
    requires
        lo <= hi <= v@.len(),
    ensures
        r@ == v@.subrange(lo as int, hi as int),
{
    let mut r: Vec<T> = Vec::new();
    let mut i: usize = lo;
    while i < hi
        invariant
            lo <= i <= hi,
            hi <= v@.len(),
            r@ == v@.subrange(lo as int, i as int),
        decreases hi - i,
    {
        r.push(v[i]);
        i = i + 1;
        assert(r@ =~= v@.subrange(lo as int, i as int));
    }
    r
}

/// A node cut around its middle entry: the raised entry and the handles of
/// the two halves, both written to the log.
pub struct SplittedNode {
    pub top: NodeEntry,
    pub left_child: NodeReference,
    pub right_child: NodeReference,
}

impl NodeReference {
    /// Reads the node that the handle points to.
    pub fn get_value(&self, store: &Store) -> (r: Node)
        requires
            (self.offset as int) < store.records@.len(),
            store.records@[self.offset as int] is Page,
        ensures
            r.node_entries@ == store.records@[self.offset as int]->Page_0.node_entries@,
            r.children@ == store.records@[self.offset as int]->Page_0.children@,
    {
        match &store.records[self.offset] {
            Record::Page(n) => n.duplicate(),
            Record::Text(_) => Node { node_entries: Vec::new(), children: Vec::new() },
        }
    }

    /// Writes a node to the log and returns its handle.
    pub fn of(store: &mut Store, node: Node) -> (r: NodeReference)
        requires
            old(store).wf(),
            node.fits(old(store).records@),
        ensures
            final(store).wf(),
            final(store).records@ == old(store).records@.push(Record::Page(node)),
            r.offset == old(store).records@.len(),
    {
        store.append_node(node)
    }

    /// Writes an empty leaf and returns its handle.
    pub fn new(store: &mut Store) -> (r: NodeReference)
        requires
            old(store).wf(),
        ensures
            final(store).wf(),
            final(store).records@.len() == old(store).records@.len() + 1,
            extends(old(store).records@, final(store).records@),
            r.offset == old(store).records@.len(),
            final(store).records@[r.offset as int] is Page,
            final(store).records@[r.offset as int]->Page_0.node_entries@.len() == 0,
            final(store).records@[r.offset as int]->Page_0.children@.len() == 0,
    {
        let node = Node { node_entries: Vec::new(), children: Vec::new() };
        let r = store.append_node(node);
        assert(final(store).records@.subrange(0, old(store).records@.len() as int) =~= old(store).records@);
        r
    }
}

/// The halves of a node, cut around entry `m`, hold what the node held.
pub open spec fn halves_of(n: Node, left: Node, top: NodeEntry, right: Node) -> bool {
    let e = n.node_entries@;
    let c = n.children@;
    let m = (e.len() / 2) as int;
    &&& left.node_entries@ == e.subrange(0, m)
    &&& top == e[m]
    &&& right.node_entries@ == e.subrange(m + 1, e.len() as int)
    &&& if c.len() == 0 {
        left.children@.len() == 0 && right.children@.len() == 0
    } else {
        left.children@ == c.subrange(0, m + 1) && right.children@ == c.subrange(
            m + 1,
            e.len() as int + 1,
        )
    }
}

/// Both halves of a node that fits a log fit it too.
pub proof fn lemma_halves_fit(
    n: Node,
    left: Node,
    top: NodeEntry,
    right: Node,
    records: Seq<Record>,
    b: int,
)
    requires
        n.fits(records),
        n.refs_below(b),
        n.node_entries@.len() == MAX_NODE_SIZE,
        n.children@.len() == 0 || n.children@.len() == n.node_entries@.len() + 1,
        halves_of(n, left, top, right),
    ensures
        left.fits(records),
        right.fits(records),
        left.refs_below(b),
        right.refs_below(b),
        (top.value_reference.offset as int) < b,
        (top.value_reference.offset as int) < records.len(),
        records[top.value_reference.offset as int] is Text,
{
    let e = n.node_entries@;
    let m = (e.len() / 2) as int;
    assert forall|i: int| 0 <= i < left.node_entries@.len() implies (#[trigger] left.node_entries@[i])
        == n.node_entries@[i] by {}
    assert forall|i: int| 0 <= i < right.node_entries@.len() implies (#[trigger] right.node_entries@[i])
        == n.node_entries@[i + m + 1] by {}
    assert forall|i: int| 0 <= i < left.children@.len() implies (#[trigger] left.children@[i])
        == n.children@[i] by {}
    assert forall|i: int| 0 <= i < right.children@.len() implies (#[trigger] right.children@[i])
        == n.children@[i + m + 1] by {}
}

impl Node {
    /// A fresh node with the same entries and slots.
    pub fn duplicate(&self) -> (r: Node)
        ensures
            r.node_entries@ == self.node_entries@,
            r.children@ == self.children@,
    {
        Node {
            node_entries: copy_range(&self.node_entries, 0, self.node_entries.len()),
            children: copy_range(&self.children, 0, self.children.len()),
        }
    }

    /// Cuts the node around its middle entry into two halves, leaves when
    /// the node is a leaf.
    pub fn split_halves(&self) -> (r: (Node, NodeEntry, Node))
        requires
            self.node_entries@.len() >= 1,
            self.children@.len() == 0 || self.children@.len() == self.node_entries@.len() + 1,
        ensures
            halves_of(*self, r.0, r.1, r.2),
    {
        let len = self.node_entries.len();
        let m = len / 2;
        let left_entries = copy_range(&self.node_entries, 0, m);
        let right_entries = copy_range(&self.node_entries, m + 1, len);
        let top = self.node_entries[m];
        if self.children.len() == 0 {
            (
                Node { node_entries: left_entries, children: Vec::new() },
                top,
                Node { node_entries: right_entries, children: Vec::new() },
            )
        } else {
            let left_children = copy_range(&self.children, 0, m + 1);
            let right_children = copy_range(&self.children, m + 1, len + 1);
            (
                Node { node_entries: left_entries, children: left_children },
                top,
                Node { node_entries: right_entries, children: right_children },
            )
        }
    }

    /// Cuts the node around its middle entry and writes both halves.
    pub fn split_me(&self, store: &mut Store) -> (r: SplittedNode)
        requires
            old(store).wf(),
            self.fits(old(store).records@),
            self.node_entries@.len() == MAX_NODE_SIZE,
            self.children@.len() == 0 || self.children@.len() == self.node_entries@.len() + 1,
        ensures
            final(store).wf(),
            extends(old(store).records@, final(store).records@),
            final(store).records@.len() == old(store).records@.len() + 2,
            r.left_child.offset == old(store).records@.len(),
            r.right_child.offset == old(store).records@.len() + 1,
            final(store).records@[r.left_child.offset as int] is Page,
            final(store).records@[r.right_child.offset as int] is Page,
            halves_of(
                *self,
                final(store).records@[r.left_child.offset as int]->Page_0,
                r.top,
                final(store).records@[r.right_child.offset as int]->Page_0,
            ),
    {
        let ghost s0 = store.records@;
        let (left, top, right) = self.split_halves();
        proof {
            lemma_halves_fit(*self, left, top, right, s0, s0.len() as int);
        }
        let left_child = store.append_node(left);
        let ghost s1 = store.records@;
        assert(s1.subrange(0, s0.len() as int) =~= s0);
        proof {
            lemma_fits_extend(right, s0, s1);
        }
        let right_child = store.append_node(right);
        assert(store.records@.subrange(0, s0.len() as int) =~= s0);
        SplittedNode { top, left_child, right_child }
    }
}


/// The entry for `key` whose value is written at position `at` of the log.
pub open spec fn new_entry(key: i32, at: int) -> NodeEntry {
    NodeEntry { key, value_reference: ValueReference { offset: at as usize } }
}

/// `r` is leaf `n` after inserting `key`, whose value was written first, at
/// the end of log `old`: an update keeps the leaf's entries but for the
/// value handle; an insert puts the entry at its descent position; a leaf
/// that so reaches capacity becomes its middle entry over two new leaves
/// holding the entries on either side.
pub open spec fn leaf_inserted(old: Seq<Record>, new: Seq<Record>, n: Node, key: i32, r: Node) -> bool {
    let e = n.node_entries@;
    let x = new_entry(key, old.len() as int);
    let m = match_from(e, key, 0);
    let d = descent_from(e, key, 0);
    if m < e.len() {
        r.children@.len() == 0 && r.node_entries@ == e.update(m, x)
    } else if e.len() + 1 != MAX_NODE_SIZE {
        r.children@.len() == 0 && r.node_entries@ == e.insert(d, x)
    } else {
        let f = e.insert(d, x);
        let l = r.children@[0]->0.offset as int;
        let g = r.children@[1]->0.offset as int;
        &&& r.node_entries@ == seq![f[1]]
        &&& r.children@.len() == 2
        &&& r.children@[0] is Some
        &&& r.children@[1] is Some
        &&& old.len() < l < new.len()
        &&& old.len() < g < new.len()
        &&& new[l] is Page
        &&& new[g] is Page
        &&& new[l]->Page_0.node_entries@ == f.subrange(0, 1)
        &&& new[l]->Page_0.children@.len() == 0
        &&& new[g]->Page_0.node_entries@ == f.subrange(2, 3)
        &&& new[g]->Page_0.children@.len() == 0
    }
}

/// Putting a new key at its descent position keeps entries in order.
pub proof fn lemma_insert_sorted(e: Seq<NodeEntry>, x: NodeEntry, d: int)
    requires
        sorted(e),
        0 <= d <= e.len(),
        forall|j: int| 0 <= j < e.len() ==> e[j].key != x.key,
        forall|j: int| 0 <= j < d ==> !(x.key < e[j].key),
        d < e.len() ==> x.key < e[d].key,
    ensures
        sorted(e.insert(d, x)),
{
    let f = e.insert(d, x);
    assert forall|i: int, j: int| 0 <= i < j < f.len() implies #[trigger] f[i].key < #[trigger] f[j].key by {
        if i < d {
            assert(e[i].key != x.key);
            if j > d {
                assert(e[d].key <= e[j - 1].key) by {
                    if d < j - 1 {
                        assert(e[d].key < e[j - 1].key);
                    }
                }
            }
        } else if i == d {
            assert(e[d].key <= e[j - 1].key) by {
                if d < j - 1 {
                    assert(e[d].key < e[j - 1].key);
                }
            }
        } else {
            assert(e[i - 1].key < e[j - 1].key);
        }
    }
}

/// When a full leaf is split under a new node `r`, every other key is found
/// there as in the leaf's old entries `e`.
#[verifier::rlimit(60)]
proof fn lemma_leaf_split_frame(
    s0: Seq<Record>,
    s3: Seq<Record>,
    e: Seq<NodeEntry>,
    x: NodeEntry,
    d: int,
    r: Node,
    left: Node,
    right: Node,
    lr: int,
    rr: int,
)
    requires
        extends(s0, s3),
        e.len() == 2,
        0 <= d <= 2,
        sorted(e.insert(d, x)),
        forall|j: int| 0 <= j < e.len() ==> (#[trigger] e[j]).value_reference.offset < s0.len(),
        forall|j: int| 0 <= j < e.len() ==> (#[trigger] e[j]).key != x.key,
        r.node_entries@ == seq![e.insert(d, x)[1]],
        r.children@ == seq![Some(NodeReference { offset: lr as usize }), Some(NodeReference { offset: rr as usize })],
        0 <= lr < s3.len(),
        0 <= rr < s3.len(),
        lr == lr as usize,
        rr == rr as usize,
        s3[lr] == Record::Page(left),
        s3[rr] == Record::Page(right),
        left.node_entries@ == e.insert(d, x).subrange(0, 1),
        right.node_entries@ == e.insert(d, x).subrange(2, 3),
        left.children@.len() == 0,
        right.children@.len() == 0,
    ensures
        forall|k: i32| k != x.key ==> #[trigger] node_lookup(s3, r, k, s3.len() as nat) == leaf_find(s0, e, k),
{
    let f = e.insert(d, x);
    assert forall|k: i32| k != x.key implies #[trigger] node_lookup(s3, r, k, s3.len() as nat) == leaf_find(s0, e, k) by {
        lemma_leaf_lookup(s3, left, k, lr as nat);
        lemma_leaf_lookup(s3, right, k, rr as nat);
        lemma_match_from(e, k, 0);
        let j0 = match_from(e, k, 0);
        if j0 < e.len() {
            assert(s3[e[j0].value_reference.offset as int] == s3.subrange(0, s0.len() as int)[e[j0].value_reference.offset as int]);
            let w = if j0 < d { j0 } else { j0 + 1 };
            assert(f[w] == e[j0]);
            if w == 1 {
                assert(match_from(r.node_entries@, k, 0) == 0);
            } else if w == 0 {
                assert(f[0].key < f[1].key);
                assert(r.node_entries@[0].key != k);
                assert(match_from(r.node_entries@, k, 1) == 1);
                assert(match_from(r.node_entries@, k, 0) == 1);
                assert(descent_from(r.node_entries@, k, 0) == 0);
                lemma_find_at(s3, left.node_entries@, k, 0);
            } else {
                assert(f[1].key < f[2].key);
                assert(r.node_entries@[0].key != k);
                assert(match_from(r.node_entries@, k, 1) == 1);
                assert(match_from(r.node_entries@, k, 0) == 1);
                assert(descent_from(r.node_entries@, k, 1) == 1);
                assert(descent_from(r.node_entries@, k, 0) == 1);
                lemma_find_at(s3, right.node_entries@, k, 0);
            }
        } else {
            assert forall|j: int| 0 <= j < f.len() implies (#[trigger] f[j]).key != k by {
                if j < d {
                    assert(f[j] == e[j]);
                } else if j > d {
                    assert(f[j] == e[j - 1]);
                }
            }
            lemma_find_none(s3, left.node_entries@, k);
            lemma_find_none(s3, right.node_entries@, k);
            assert(match_from(r.node_entries@, k, 1) == 1);
            assert(match_from(r.node_entries@, k, 0) == 1);
            lemma_descent_from(r.node_entries@, k, 0);
        }
    }
}

/// Inserts into a leaf; a leaf that reaches capacity becomes an internal
/// node over two new leaves.
fn insert_leaf(
    n: Node,
    store: &mut Store,
    key: i32,
    value: String,
    Ghost(lo): Ghost<int>,
    Ghost(hi): Ghost<int>,
) -> (r: Node)
    requires
        old(store).wf(),
        n.fits(old(store).records@),
        n.children@.len() == 0,
        lo < key < hi,
        forall|i: int| 0 <= i < n.node_entries@.len() ==> lo < #[trigger] n.node_entries@[i].key < hi,
    ensures
        final(store).wf(),
        extends(old(store).records@, final(store).records@),
        r.fits(final(store).records@),
        node_lookup(final(store).records@, r, key, final(store).records@.len() as nat) == Some(
            value@,
        ),
        ordered(final(store).records@, r, lo, hi, final(store).records@.len() as nat),
        forall|k: i32|
            k != key ==> #[trigger] node_lookup(
                final(store).records@,
                r,
                k,
                final(store).records@.len() as nat,
            ) == leaf_find(old(store).records@, n.node_entries@, k),
        leaf_inserted(old(store).records@, final(store).records@, n, key, r),
        value_at(final(store).records@, old(store).records@.len() as int) == Some(value@),
{
    let ghost s0 = store.records@;
    let ghost e = n.node_entries@;
    let ghost text = value@;
    let mut n = n;
    let m = find_key(&n.node_entries, key);
    proof {
        lemma_match_from(e, key, 0);
    }
    let vr = store.append_value(value);
    let ghost s1 = store.records@;
    assert(s1.subrange(0, s0.len() as int) =~= s0);
    assert(value_at(s1, vr.offset as int) == Some(text));
    proof {
        lemma_fits_extend(n, s0, s1);
    }
    let x = NodeEntry { key, value_reference: vr };
    if m < n.node_entries.len() {
        n.node_entries.set(m, x);
        assert(n.node_entries@ == e.update(m as int, x));
        assert forall|j: int| 0 <= j < n.node_entries@.len() implies (#[trigger] n.node_entries@[j]).key
            == e[j].key by {}
        proof {
            lemma_match_is(n.node_entries@, key, 0, m as int);
            assert forall|k: i32| k != key implies #[trigger] node_lookup(s1, n, k, s1.len() as nat)
                == leaf_find(s0, e, k) by {
                lemma_leaf_lookup(s1, n, k, s1.len() as nat);
                lemma_match_from(e, k, 0);
                let j0 = match_from(e, k, 0);
                lemma_match_is(n.node_entries@, k, 0, j0);
                if j0 < e.len() {
                    assert(s1[e[j0].value_reference.offset as int] == s1.subrange(0, s0.len() as int)[e[j0].value_reference.offset as int]);
                }
            }
        }
        return n;
    }
    let d = descent_index(&n.node_entries, key);
    proof {
        lemma_descent_from(e, key, 0);
        lemma_insert_sorted(e, x, d as int);
    }
    n.node_entries.insert(d, x);
    let ghost f = n.node_entries@;
    assert(f == e.insert(d as int, x));
    assert forall|j: int| 0 <= j < d implies (#[trigger] f[j]).key != key by {}
    proof {
        lemma_match_is(f, key, 0, d as int);
    }
    assert(n.fits(s1));
    if n.is_full() {
        let sp = n.split_me(store);
        let ghost s3 = store.records@;
        let ghost left = s3[sp.left_child.offset as int]->Page_0;
        let ghost right = s3[sp.right_child.offset as int]->Page_0;
        proof {
            lemma_extends_trans(s0, s1, s3);
        }
        assert(s3[vr.offset as int] == s3.subrange(0, s1.len() as int)[vr.offset as int]);
        assert(value_at(s3, vr.offset as int) == Some(text));
        let mut entries: Vec<NodeEntry> = Vec::new();
        entries.push(sp.top);
        let mut children: Vec<Option<NodeReference>> = Vec::new();
        children.push(Some(sp.left_child));
        children.push(Some(sp.right_child));
        let r = Node { node_entries: entries, children };
        assert(sp.top == f[1]);
        assert(s3[f[1].value_reference.offset as int] == s3.subrange(0, s1.len() as int)[f[1].value_reference.offset as int]);
        proof {
            lemma_leaf_lookup(s3, left, key, sp.left_child.offset as nat);
            lemma_leaf_lookup(s3, right, key, sp.right_child.offset as nat);
            assert(left.node_entries@ =~= f.subrange(0, 1));
            assert(right.node_entries@ =~= f.subrange(2, 3));
            assert(r.node_entries@[0] == f[1]);
            assert(ordered(s3, left, lo, f[1].key as int, sp.left_child.offset as nat));
            assert(ordered(s3, right, f[1].key as int, hi, sp.right_child.offset as nat));
            assert(ordered(s3, r, lo, hi, s3.len() as nat));
            assert(r.node_entries@ =~= seq![f[1]]);
            assert(r.children@ =~= seq![Some(sp.left_child), Some(sp.right_child)]);
            assert forall|j: int| 0 <= j < e.len() implies (#[trigger] e[j]).value_reference.offset < s0.len() by {
                assert(n.node_entries@[if j < d { j } else { j + 1 }] == e[j]);
            }
            lemma_leaf_split_frame(
                s0,
                s3,
                e,
                x,
                d as int,
                r,
                left,
                right,
                sp.left_child.offset as int,
                sp.right_child.offset as int,
            );
        }
        if d == 1 {
            assert(match_from(r.node_entries@, key, 0) == 0);
        } else if d == 0 {
            assert(left.node_entries@ == f.subrange(0, 1));
            assert(match_from(left.node_entries@, key, 0) == 0);
            assert(node_lookup(s3, left, key, sp.left_child.offset as nat) == Some(text));
            assert(f[0].key < f[1].key);
            assert(r.node_entries@[0].key != key);
            assert(match_from(r.node_entries@, key, 1) == 1);
            assert(match_from(r.node_entries@, key, 0) == 1);
            assert(descent_from(r.node_entries@, key, 1) == 1);
            assert(descent_from(r.node_entries@, key, 0) == 0);
        } else {
            assert(right.node_entries@ == f.subrange(2, 3));
            assert(match_from(right.node_entries@, key, 0) == 0);
            assert(node_lookup(s3, right, key, sp.right_child.offset as nat) == Some(text));
            assert(f[1].key < f[2].key);
            assert(r.node_entries@[0].key != key);
            assert(match_from(r.node_entries@, key, 1) == 1);
            assert(match_from(r.node_entries@, key, 0) == 1);
            assert(descent_from(r.node_entries@, key, 1) == 1);
            assert(descent_from(r.node_entries@, key, 0) == 1);
        }
        r
    } else {
        proof {
            assert forall|k: i32| k != key implies #[trigger] node_lookup(s1, n, k, s1.len() as nat)
                == leaf_find(s0, e, k) by {
                lemma_leaf_lookup(s1, n, k, s1.len() as nat);
                lemma_match_from(e, k, 0);
                let j0 = match_from(e, k, 0);
                if j0 < e.len() {
                    assert(s1[e[j0].value_reference.offset as int] == s1.subrange(0, s0.len() as int)[e[j0].value_reference.offset as int]);
                    let w = if j0 < d { j0 } else { j0 + 1 };
                    assert(f[w] == e[j0]);
                    lemma_find_at(s1, f, k, w);
                } else {
                    assert forall|j: int| 0 <= j < f.len() implies (#[trigger] f[j]).key != k by {
                        if j < d {
                            assert(f[j] == e[j]);
                        } else if j > d {
                            assert(f[j] == e[j - 1]);
                        }
                    }
                    lemma_find_none(s1, f, k);
                }
            }
        }
        n
    }
}


/// Fills the slots of an internal node up to one more than its entries,
/// with slots of empty leaves.
fn pad(n: Node, Ghost(records): Ghost<Seq<Record>>, Ghost(b): Ghost<int>) -> (r: Node)
    requires
        n.fits(records),
        n.refs_below(b),
        n.children@.len() > 0,
    ensures
        r.fits(records),
        r.refs_below(b),
        r.node_entries@ == n.node_entries@,
        r.children@.len() == n.node_entries@.len() + 1,
        forall|i: int| 0 <= i < n.children@.len() ==> r.children@[i] == n.children@[i],
        forall|i: int| n.children@.len() <= i < r.children@.len() ==> r.children@[i] is None,
{
    let ghost e0 = n.node_entries@;
    let ghost c0 = n.children@;
    let mut n = n;
    while n.children.len() <= n.node_entries.len()
        invariant
            n.fits(records),
            n.refs_below(b),
            n.children@.len() >= c0.len() > 0,
            n.node_entries@ == e0,
            forall|i: int| 0 <= i < c0.len() ==> n.children@[i] == c0[i],
            forall|i: int| c0.len() <= i < n.children@.len() ==> n.children@[i] is None,
        decreases n.node_entries@.len() + 1 - n.children@.len(),
    {
        let ghost c = n.children@;
        n.children.push(None);
        assert forall|i: int| 0 <= i < n.children@.len() && (#[trigger] n.children@[i]) is Some
            implies i < c.len() && n.children@[i] == c[i] by {}
    }
    n
}

/// Padding with empty slots changes neither the order nor any lookup.
proof fn lemma_pad_same(records: Seq<Record>, n: Node, p: Node, lo: int, hi: int, b: nat)
    requires
        p.node_entries@ == n.node_entries@,
        p.children@.len() >= n.children@.len(),
        forall|i: int| 0 <= i < n.children@.len() ==> p.children@[i] == n.children@[i],
        forall|i: int| n.children@.len() <= i < p.children@.len() ==> p.children@[i] is None,
    ensures
        ordered(records, n, lo, hi, b) ==> ordered(records, p, lo, hi, b),
        forall|k: i32| #[trigger] node_lookup(records, p, k, b) == node_lookup(records, n, k, b),
{
    if ordered(records, n, lo, hi, b) {
        assert forall|d: int| 0 <= d < p.children@.len() && (#[trigger] p.children@[d]) is Some implies
            d < n.children@.len() && p.children@[d] == n.children@[d] by {}
    }
    assert forall|k: i32| #[trigger] node_lookup(records, p, k, b) == node_lookup(records, n, k, b) by {
        lemma_descent_from(n.node_entries@, k, 0);
    }
}

/// Ordering looks at keys and slots only, not at value handles.
proof fn lemma_same_keys(records: Seq<Record>, a: Node, b: Node, lo: int, hi: int, bound: nat)
    requires
        a.children@ == b.children@,
        a.children@.len() <= a.node_entries@.len() + 1,
        a.node_entries@.len() == b.node_entries@.len(),
        forall|i: int| 0 <= i < a.node_entries@.len() ==> (#[trigger] a.node_entries@[i]).key == b.node_entries@[i].key,
        ordered(records, a, lo, hi, bound),
    ensures
        ordered(records, b, lo, hi, bound),
{
    let ea = a.node_entries@;
    let eb = b.node_entries@;
    assert forall|i: int, j: int| 0 <= i < j < eb.len() implies #[trigger] eb[i].key < #[trigger] eb[j].key by {
        assert(ea[i].key < ea[j].key);
    }
    assert forall|i: int| 0 <= i < eb.len() implies lo < #[trigger] eb[i].key < hi by {
        assert(lo < ea[i].key < hi);
    }
    assert forall|d: int| 0 <= d < b.children@.len() && (#[trigger] b.children@[d]) is Some implies
        slot_lo(eb, lo, d) == slot_lo(ea, lo, d) && slot_hi(eb, hi, d) == slot_hi(ea, hi, d) by {
        if d > 0 {
            assert(ea[d - 1].key == eb[d - 1].key);
        }
        if d < ea.len() {
            assert(ea[d].key == eb[d].key);
        }
    }
}

/// Giving entry `m`, which carries `key`, a new value handle changes the
/// lookup of no other key.
proof fn lemma_replace_value(a: Seq<Record>, b: Seq<Record>, p: Node, q: Node, m: int, key: i32, bound: nat)
    requires
        records_ok(a),
        extends(a, b),
        bound <= a.len(),
        p.refs_below(bound as int),
        q.children@ == p.children@,
        0 <= m < p.node_entries@.len(),
        p.node_entries@[m].key == key,
        q.node_entries@ == p.node_entries@.update(m, q.node_entries@[m]),
        q.node_entries@[m].key == key,
    ensures
        forall|k: i32| k != key ==> #[trigger] node_lookup(b, q, k, b.len() as nat) == node_lookup(a, p, k, bound),
{
    let e = p.node_entries@;
    let f = q.node_entries@;
    assert forall|k: i32| k != key implies #[trigger] node_lookup(b, q, k, b.len() as nat) == node_lookup(a, p, k, bound) by {
        lemma_match_from(e, k, 0);
        lemma_descent_from(e, k, 0);
        let j = match_from(e, k, 0);
        assert forall|i: int| 0 <= i < f.len() implies (#[trigger] f[i]).key == e[i].key by {}
        lemma_match_is(f, k, 0, j);
        let dk = descent_from(e, k, 0);
        lemma_descent_is(f, k, 0, dk);
        if e.len() == 0 {
        } else if j < e.len() {
            let v = e[j].value_reference.offset as int;
            assert(f[j] == e[j]);
            assert(b[v] == b.subrange(0, a.len() as int)[v]);
        } else if dk < p.children@.len() && p.children@[dk] is Some {
            let c = p.children@[dk]->0.offset as int;
            assert(b[c] == b.subrange(0, a.len() as int)[c]);
            if c < bound && a[c] is Page {
                assert(record_ok(a, c));
                lemma_lookup_extend(a, b, a[c]->Page_0, k, c as nat);
            }
        }
    }
}

/// The halves of a full search tree over `(lo, hi)` are search trees on
/// either side of the raised entry, and each finds what the whole finds on
/// its side.
#[verifier::rlimit(60)]
proof fn lemma_halves_ordered(
    records: Seq<Record>,
    n: Node,
    left: Node,
    top: NodeEntry,
    right: Node,
    lo: int,
    hi: int,
    bound: nat,
)
    requires
        ordered(records, n, lo, hi, bound),
        n.node_entries@.len() == MAX_NODE_SIZE,
        n.children@.len() == 0 || n.children@.len() == n.node_entries@.len() + 1,
        halves_of(n, left, top, right),
    ensures
        lo < top.key < hi,
        ordered(records, left, lo, top.key as int, bound),
        ordered(records, right, top.key as int, hi, bound),
        forall|k: i32| k < top.key ==> #[trigger] node_lookup(records, left, k, bound) == node_lookup(records, n, k, bound),
        forall|k: i32| k > top.key ==> #[trigger] node_lookup(records, right, k, bound) == node_lookup(records, n, k, bound),
        node_lookup(records, n, top.key, bound) == value_at(records, top.value_reference.offset as int),
{
    let e = n.node_entries@;
    let le = left.node_entries@;
    let re = right.node_entries@;
    assert(e[1] == top);
    assert(le[0] == e[0]);
    assert(re[0] == e[2]);
    assert(e[0].key < e[1].key && e[1].key < e[2].key);
    lemma_match_sorted(e, top.key, 1);
    assert forall|j: int| 0 <= j < left.children@.len() && (#[trigger] left.children@[j]) is Some implies
        left.children@[j] == n.children@[j] && slot_lo(le, lo, j) == slot_lo(e, lo, j)
            && slot_hi(le, top.key as int, j) == slot_hi(e, hi, j) by {}
    assert forall|j: int| 0 <= j < right.children@.len() && (#[trigger] right.children@[j]) is Some implies
        right.children@[j] == n.children@[j + 2] && slot_lo(re, top.key as int, j) == slot_lo(e, lo, j + 2)
            && slot_hi(re, hi, j) == slot_hi(e, hi, j + 2) by {}
    assert(ordered(records, left, lo, top.key as int, bound));
    assert(ordered(records, right, top.key as int, hi, bound));
    assert forall|k: i32| k < top.key implies #[trigger] node_lookup(records, left, k, bound) == node_lookup(records, n, k, bound) by {
        lemma_match_from(e, k, 0);
        lemma_descent_from(e, k, 0);
        if e[0].key == k {
            lemma_match_sorted(le, k, 0);
        } else {
            lemma_match_is(e, k, 0, 3);
            lemma_match_is(le, k, 0, 1);
            if k < e[0].key {
                lemma_descent_sorted(e, k, 0);
                lemma_descent_sorted(le, k, 0);
            } else {
                lemma_descent_sorted(e, k, 1);
                lemma_descent_sorted(le, k, 1);
            }
        }
    }
    assert forall|k: i32| k > top.key implies #[trigger] node_lookup(records, right, k, bound) == node_lookup(records, n, k, bound) by {
        lemma_match_from(e, k, 0);
        lemma_descent_from(e, k, 0);
        if e[2].key == k {
            lemma_match_sorted(e, k, 2);
            lemma_match_sorted(re, k, 0);
        } else {
            lemma_match_is(e, k, 0, 3);
            lemma_match_is(re, k, 0, 1);
            if k < e[2].key {
                lemma_descent_sorted(e, k, 2);
                lemma_descent_sorted(re, k, 0);
            } else {
                lemma_descent_sorted(e, k, 3);
                lemma_descent_sorted(re, k, 1);
            }
        }
    }
}

/// Raising entry `t` into slot `d` of a search tree, over new subtrees at
/// `ia` and `ib` that find on either side of `t` what the old child at slot
/// `d` found, keeps it a search tree, and changes the lookup of no key but
/// `key`.
#[verifier::rlimit(100)]
proof fn lemma_promote_frame(
    a: Seq<Record>,
    b: Seq<Record>,
    p: Node,
    q: Node,
    d: int,
    t: NodeEntry,
    ia: usize,
    ib: usize,
    key: i32,
    lo: int,
    hi: int,
    bound: nat,
)
    requires
        records_ok(a),
        extends(a, b),
        bound <= a.len(),
        p.refs_below(bound as int),
        ordered(a, p, lo, hi, bound),
        p.children@.len() == p.node_entries@.len() + 1,
        p.node_entries@.len() >= 1,
        0 <= d <= p.node_entries@.len(),
        p.children@[d] is Some,
        slot_lo(p.node_entries@, lo, d) < t.key < slot_hi(p.node_entries@, hi, d),
        (t.value_reference.offset as int) < b.len(),
        q.node_entries@ == p.node_entries@.insert(d, t),
        q.children@ == p.children@.update(d, Some(NodeReference { offset: ia })).insert(
            d + 1,
            Some(NodeReference { offset: ib }),
        ),
        (ia as int) < b.len(),
        (ib as int) < b.len(),
        b[ia as int] is Page,
        b[ib as int] is Page,
        ordered(b, b[ia as int]->Page_0, slot_lo(p.node_entries@, lo, d), t.key as int, ia as nat),
        ordered(b, b[ib as int]->Page_0, t.key as int, slot_hi(p.node_entries@, hi, d), ib as nat),
        forall|k: i32|
            k != key && k < t.key && match_from(p.node_entries@, k, 0) == p.node_entries@.len()
                && descent_from(p.node_entries@, k, 0) == d ==> #[trigger] node_lookup(
                b,
                b[ia as int]->Page_0,
                k,
                ia as nat,
            ) == node_lookup(a, p, k, bound),
        forall|k: i32|
            k != key && k > t.key && match_from(p.node_entries@, k, 0) == p.node_entries@.len()
                && descent_from(p.node_entries@, k, 0) == d ==> #[trigger] node_lookup(
                b,
                b[ib as int]->Page_0,
                k,
                ib as nat,
            ) == node_lookup(a, p, k, bound),
        t.key != key ==> value_at(b, t.value_reference.offset as int) == node_lookup(a, p, t.key, bound),
    ensures
        ordered(b, q, lo, hi, b.len() as nat),
        forall|k: i32| k != key ==> #[trigger] node_lookup(b, q, k, b.len() as nat) == node_lookup(a, p, k, bound),
{
    let e = p.node_entries@;
    let f = q.node_entries@;
    let pc = p.children@;
    let qc = q.children@;
    assert forall|i: int, j: int| 0 <= i < j < f.len() implies #[trigger] f[i].key < #[trigger] f[j].key by {
        if i < d && j > d {
            assert(e[i].key <= e[d - 1].key);
        }
        if i < d && j == d {
            assert(e[i].key <= e[d - 1].key);
        }
        if i == d && j > d + 1 {
            assert(e[d].key <= e[j - 1].key);
        }
        if i < d && j > d {
            assert(e[i].key < e[j - 1].key);
        }
        if i > d {
            assert(e[i - 1].key < e[j - 1].key);
        }
    }
    assert forall|i: int| 0 <= i < f.len() implies lo < #[trigger] f[i].key < hi by {
        if i < d {
            assert(f[i] == e[i]);
        } else if i > d {
            assert(f[i] == e[i - 1]);
        } else {
            if d > 0 {
                assert(lo < e[d - 1].key);
            }
            if d < e.len() {
                assert(e[d].key < hi);
            }
        }
    }
    assert forall|j: int| 0 <= j < qc.len() && (#[trigger] qc[j]) is Some implies {
        let c = qc[j]->0.offset as int;
        &&& c < b.len()
        &&& c < b.len()
        &&& b[c] is Page
        &&& ordered(b, b[c]->Page_0, slot_lo(f, lo, j), slot_hi(f, hi, j), c as nat)
    } by {
        if j < d || j > d + 1 {
            let jj = if j < d { j } else { j - 1 };
            assert(qc[j] == pc[jj]);
            assert(slot_lo(f, lo, j) == slot_lo(e, lo, jj));
            assert(slot_hi(f, hi, j) == slot_hi(e, hi, jj));
            let c = pc[jj]->0.offset as int;
            assert(b[c] == b.subrange(0, a.len() as int)[c]);
            lemma_ordered_extend(a, b, a[c]->Page_0, slot_lo(e, lo, jj), slot_hi(e, hi, jj), c as nat);
        } else if j == d {
            assert(slot_hi(f, hi, j) == t.key);
        } else {
            assert(slot_lo(f, lo, j) == t.key);
            assert(slot_hi(f, hi, j) == slot_hi(e, hi, d));
        }
    }
    assert(ordered(b, q, lo, hi, b.len() as nat));
    assert forall|k: i32| k != key implies #[trigger] node_lookup(b, q, k, b.len() as nat) == node_lookup(a, p, k, bound) by {
        lemma_match_from(e, k, 0);
        lemma_descent_from(e, k, 0);
        let m = match_from(e, k, 0);
        let dk = descent_from(e, k, 0);
        if m < e.len() {
            let w = if m < d { m } else { m + 1 };
            assert(f[w] == e[m]);
            lemma_match_sorted(f, k, w);
            let v = e[m].value_reference.offset as int;
            assert(b[v] == b.subrange(0, a.len() as int)[v]);
        } else if k == t.key {
            lemma_match_sorted(f, k, d);
        } else {
            assert forall|j: int| 0 <= j < f.len() implies (#[trigger] f[j]).key != k by {
                if j < d {
                    assert(f[j] == e[j]);
                } else if j > d {
                    assert(f[j] == e[j - 1]);
                }
            }
            lemma_match_is(f, k, 0, f.len() as int);
            if dk < d {
                lemma_descent_sorted(f, k, dk);
                assert(qc[dk] == pc[dk]);
            } else if dk > d {
                assert(e[d].key <= e[dk - 1].key);
                lemma_descent_sorted(f, k, dk + 1);
                assert(qc[dk + 1] == pc[dk]);
            } else if k < t.key {
                lemma_descent_sorted(f, k, d);
                assert(node_lookup(b, q, k, b.len() as nat) == node_lookup(b, b[ia as int]->Page_0, k, ia as nat));
            } else {
                lemma_descent_sorted(f, k, d + 1);
                assert(node_lookup(b, q, k, b.len() as nat) == node_lookup(b, b[ib as int]->Page_0, k, ib as nat));
            }
            if dk != d && pc[dk] is Some {
                let c = pc[dk]->0.offset as int;
                assert(b[c] == b.subrange(0, a.len() as int)[c]);
                if c < bound && a[c] is Page {
                    assert(record_ok(a, c));
                    lemma_lookup_extend(a, b, a[c]->Page_0, k, c as nat);
                }
            }
        }
    }
}

/// In a search tree, a key strictly inside the interval of slot `d` is
/// carried by no entry and routes to slot `d`.
proof fn lemma_route_to_slot(records: Seq<Record>, p: Node, k: i32, d: int, lo: int, hi: int, bound: nat)
    requires
        ordered(records, p, lo, hi, bound),
        0 <= d <= p.node_entries@.len(),
        slot_lo(p.node_entries@, lo, d) < k < slot_hi(p.node_entries@, hi, d),
    ensures
        match_from(p.node_entries@, k, 0) == p.node_entries@.len(),
        descent_from(p.node_entries@, k, 0) == d,
{
    let e = p.node_entries@;
    assert forall|j: int| 0 <= j < e.len() implies (#[trigger] e[j]).key != k by {
        if j < d - 1 {
            assert(e[j].key < e[d - 1].key);
        } else if j > d {
            assert(e[d].key < e[j].key);
        }
    }
    lemma_match_is(e, k, 0, e.len() as int);
    lemma_descent_sorted(e, k, d);
}

/// Pointing slot `d` of a search tree at a new subtree for that slot's
/// interval keeps it a search tree, and changes the lookups of no key that
/// routes elsewhere or that the new subtree finds as the old one did.
#[verifier::rlimit(40)]
proof fn lemma_replace_slot(
    a: Seq<Record>,
    b: Seq<Record>,
    p: Node,
    q: Node,
    d: int,
    rr: usize,
    key: i32,
    lo: int,
    hi: int,
    bound: nat,
)
    requires
        records_ok(a),
        extends(a, b),
        bound <= a.len(),
        p.refs_below(bound as int),
        ordered(a, p, lo, hi, bound),
        p.children@.len() == p.node_entries@.len() + 1,
        0 <= d < p.children@.len(),
        q.node_entries@ == p.node_entries@,
        q.children@ == p.children@.update(d, Some(NodeReference { offset: rr })),
        (rr as int) < b.len(),
        b[rr as int] is Page,
        ordered(
            b,
            b[rr as int]->Page_0,
            slot_lo(p.node_entries@, lo, d),
            slot_hi(p.node_entries@, hi, d),
            rr as nat,
        ),
        forall|k: i32|
            k != key && match_from(p.node_entries@, k, 0) == p.node_entries@.len() && descent_from(
                p.node_entries@,
                k,
                0,
            ) == d ==> #[trigger] node_lookup(b, b[rr as int]->Page_0, k, rr as nat) == node_lookup(
                a,
                p,
                k,
                bound,
            ),
    ensures
        ordered(b, q, lo, hi, b.len() as nat),
        forall|k: i32| k != key ==> #[trigger] node_lookup(b, q, k, b.len() as nat) == node_lookup(a, p, k, bound),
{
    let e = p.node_entries@;
    assert forall|j: int| 0 <= j < q.children@.len() && (#[trigger] q.children@[j]) is Some implies {
        let c = q.children@[j]->0.offset as int;
        &&& c < b.len()
        &&& c < b.len()
        &&& b[c] is Page
        &&& ordered(b, b[c]->Page_0, slot_lo(e, lo, j), slot_hi(e, hi, j), c as nat)
    } by {
        if j != d {
            assert(q.children@[j] == p.children@[j]);
            let c = p.children@[j]->0.offset as int;
            assert(b[c] == b.subrange(0, a.len() as int)[c]);
            lemma_ordered_extend(a, b, a[c]->Page_0, slot_lo(e, lo, j), slot_hi(e, hi, j), c as nat);
        }
    }
    assert(ordered(b, q, lo, hi, b.len() as nat));
    assert forall|k: i32| k != key implies #[trigger] node_lookup(b, q, k, b.len() as nat) == node_lookup(a, p, k, bound) by {
        lemma_match_from(e, k, 0);
        lemma_descent_from(e, k, 0);
        let m = match_from(e, k, 0);
        let dk = descent_from(e, k, 0);
        if e.len() == 0 {
        } else if m < e.len() {
            let v = e[m].value_reference.offset as int;
            assert(b[v] == b.subrange(0, a.len() as int)[v]);
        } else if dk != d {
            assert(q.children@[dk] == p.children@[dk]);
            if p.children@[dk] is Some {
                let c = p.children@[dk]->0.offset as int;
                assert(b[c] == b.subrange(0, a.len() as int)[c]);
                assert(record_ok(a, c));
                lemma_lookup_extend(a, b, a[c]->Page_0, k, c as nat);
            }
        } else {
            assert(node_lookup(b, b[rr as int]->Page_0, k, rr as nat) == node_lookup(a, p, k, bound));
        }
    }
}

/// Pointing one slot of a node at a node of the log keeps the node fitting.
proof fn lemma_set_slot(a: Node, b: Node, i: int, r: NodeReference, records: Seq<Record>)
    requires
        a.fits(records),
        a.children@.len() > 0,
        0 <= i < a.children@.len(),
        b.node_entries@ == a.node_entries@,
        b.children@ == a.children@.update(i, Some(r)),
        (r.offset as int) < records.len(),
        records[r.offset as int] is Page,
    ensures
        b.fits(records),
{
    assert forall|j: int| 0 <= j < b.children@.len() && j != i implies #[trigger] b.children@[j]
        == a.children@[j] by {}
}

/// Raising `top` into slot `d` of a node, over two halves that both sit at
/// `o`, keeps the node fitting.
proof fn lemma_promote(a: Node, b: Node, d: int, top: NodeEntry, o: NodeReference, records: Seq<Record>)
    requires
        a.fits(records),
        a.children@.len() == a.node_entries@.len() + 1,
        0 <= d <= a.node_entries@.len(),
        b.node_entries@ == a.node_entries@.insert(d, top),
        b.children@ == a.children@.update(d, Some(o)).insert(d + 1, Some(o)),
        (top.value_reference.offset as int) < records.len(),
        records[top.value_reference.offset as int] is Text,
        (o.offset as int) < records.len(),
        records[o.offset as int] is Page,
    ensures
        b.fits(records),
        b.children@.len() == b.node_entries@.len() + 1,
{
    assert forall|j: int| 0 <= j < b.node_entries@.len() && j != d implies #[trigger] b.node_entries@[j]
        == a.node_entries@[if j < d { j } else { j - 1 }] by {}
    assert forall|j: int| 0 <= j < b.children@.len() && j != d && j != d + 1 implies #[trigger] b.children@[j]
        == a.children@[if j < d { j } else { j - 1 }] by {}
}

/// Inserts `key` below node `n`, whose child handles all lie below `bound`,
/// and returns the new version of `n`. A full child is split before the
/// descent, so that it has room for the entry that rises from below.
#[verifier::rlimit(100)]
fn insert_rec(
    n: Node,
    store: &mut Store,
    key: i32,
    value: String,
    Ghost(bound): Ghost<nat>,
    Ghost(lo): Ghost<int>,
    Ghost(hi): Ghost<int>,
) -> (r: Node)
    requires
        old(store).wf(),
        n.fits(old(store).records@),
        n.refs_below(bound as int),
        bound <= old(store).records@.len(),
        ordered(old(store).records@, n, lo, hi, bound),
        lo < key < hi,
    ensures
        final(store).wf(),
        extends(old(store).records@, final(store).records@),
        r.fits(final(store).records@),
        node_lookup(final(store).records@, r, key, final(store).records@.len() as nat) == Some(
            value@,
        ),
        ordered(final(store).records@, r, lo, hi, final(store).records@.len() as nat),
        forall|k: i32|
            k != key ==> #[trigger] node_lookup(
                final(store).records@,
                r,
                k,
                final(store).records@.len() as nat,
            ) == node_lookup(old(store).records@, n, k, bound),
        n.children@.len() == 0 ==> leaf_inserted(old(store).records@, final(store).records@, n, key, r),
    decreases bound, 1nat,
{
    let ghost s0 = store.records@;
    let ghost n0 = n;
    if n.is_leaf() {
        let r = insert_leaf(n, store, key, value, Ghost(lo), Ghost(hi));
        assert forall|k: i32| k != key implies #[trigger] node_lookup(
            store.records@,
            r,
            k,
            store.records@.len() as nat,
        ) == node_lookup(s0, n0, k, bound) by {
            lemma_leaf_lookup(s0, n0, k, bound);
        }
        return r;
    }
    let mut n = pad(n, Ghost(s0), Ghost(bound as int));
    let ghost e = n.node_entries@;
    let ghost p = n;
    proof {
        lemma_pad_same(s0, n0, p, lo, hi, bound);
    }
    let m = find_key(&n.node_entries, key);
    proof {
        lemma_match_from(e, key, 0);
        lemma_descent_from(e, key, 0);
    }
    if m < n.node_entries.len() {
        let vr = store.append_value(value);
        let ghost s1 = store.records@;
        assert(s1.subrange(0, s0.len() as int) =~= s0);
        proof {
            lemma_fits_extend(n, s0, s1);
        }
        n.node_entries.set(m, NodeEntry { key, value_reference: vr });
        assert forall|j: int| 0 <= j < n.node_entries@.len() implies (#[trigger] n.node_entries@[j]).key
            == e[j].key by {}
        proof {
            lemma_match_is(n.node_entries@, key, 0, m as int);
            lemma_ordered_extend(s0, s1, p, lo, hi, bound);
            lemma_bound_raise(s1, p, lo, hi, bound, s1.len() as nat);
            lemma_same_keys(s1, p, n, lo, hi, s1.len() as nat);
            lemma_replace_value(s0, s1, p, n, m as int, key, bound);
        }
        return n;
    }
    let d = descent_index(&n.node_entries, key);
    let slots = n.children.len();
    proof {
        if d > 0 {
            assert(e[d - 1].key != key);
        }
    }
    assert(d < slots);
    let cref = match n.children[d] {
        Some(cref) => cref,
        None => {
            let leaf_ref = NodeReference::new(store);
            let leaf = leaf_ref.get_value(store);
            let ghost s1 = store.records@;
            let res = insert_leaf(
                leaf,
                store,
                key,
                value,
                Ghost(slot_lo(e, lo, d as int)),
                Ghost(slot_hi(e, hi, d as int)),
            );
            let ghost s2 = store.records@;
            let rr = store.append_node(res);
            let ghost s3 = store.records@;
            assert(s3.subrange(0, s2.len() as int) =~= s2);
            proof {
                lemma_extends_trans(s0, s1, s2);
                lemma_extends_trans(s0, s2, s3);
                lemma_fits_extend(n, s0, s3);
                lemma_lookup_extend(s2, s3, res, key, s2.len() as nat);
                lemma_ordered_extend(s2, s3, res, slot_lo(e, lo, d as int), slot_hi(e, hi, d as int), s2.len() as nat);
            }
            let ghost before = n;
            n.children.set(d, Some(rr));
            proof {
                lemma_set_slot(before, n, d as int, rr, s3);
                assert forall|k: i32|
                    k != key && match_from(e, k, 0) == e.len() && descent_from(e, k, 0) == d implies #[trigger] node_lookup(
                    s3,
                    s3[rr.offset as int]->Page_0,
                    k,
                    rr.offset as nat,
                ) == node_lookup(s0, p, k, bound) by {
                    lemma_lookup_extend(s2, s3, res, k, s2.len() as nat);
                    assert(match_from(leaf.node_entries@, k, 0) == 0);
                }
                lemma_replace_slot(s0, s3, p, n, d as int, rr.offset, key, lo, hi, bound);
            }
            return n;
        },
    };
    let r = descend_child(n, d, cref, store, key, value, Ghost(bound), Ghost(lo), Ghost(hi));
    r
}

/// Inserts `key` into the existing child at slot `d` of node `n`, the slot
/// that `key` routes to, splitting that child first when it is full, and
/// returns the new version of `n`.
#[verifier::rlimit(100)]
fn descend_child(
    n: Node,
    d: usize,
    cref: NodeReference,
    store: &mut Store,
    key: i32,
    value: String,
    Ghost(bound): Ghost<nat>,
    Ghost(lo): Ghost<int>,
    Ghost(hi): Ghost<int>,
) -> (r: Node)
    requires
        old(store).wf(),
        n.fits(old(store).records@),
        n.refs_below(bound as int),
        bound <= old(store).records@.len(),
        ordered(old(store).records@, n, lo, hi, bound),
        lo < key < hi,
        n.children@.len() == n.node_entries@.len() + 1,
        n.node_entries@.len() >= 1,
        match_from(n.node_entries@, key, 0) == n.node_entries@.len(),
        d == descent_from(n.node_entries@, key, 0),
        n.children@[d as int] == Some(cref),
    ensures
        final(store).wf(),
        extends(old(store).records@, final(store).records@),
        r.fits(final(store).records@),
        node_lookup(final(store).records@, r, key, final(store).records@.len() as nat) == Some(
            value@,
        ),
        ordered(final(store).records@, r, lo, hi, final(store).records@.len() as nat),
        forall|k: i32|
            k != key ==> #[trigger] node_lookup(
                final(store).records@,
                r,
                k,
                final(store).records@.len() as nat,
            ) == node_lookup(old(store).records@, n, k, bound),
    decreases bound, 0nat,
{
    let ghost s0 = store.records@;
    let ghost e = n.node_entries@;
    let ghost p = n;
    let mut n = n;
    let slots = n.children.len();
    proof {
        lemma_match_from(e, key, 0);
        lemma_descent_from(e, key, 0);
        if d > 0 {
            assert(e[d - 1].key != key);
        }
    }
    let ghost c = cref.offset as int;
    assert(record_ok(s0, c));
    let child = cref.get_value(store);
    let ghost ch = s0[c]->Page_0;
    let ghost clo = slot_lo(e, lo, d as int);
    let ghost chi = slot_hi(e, hi, d as int);
    proof {
        lemma_fits_extend(child, s0.subrange(0, c), s0);
        assert(ordered(s0, ch, clo, chi, c as nat));
        assert(ordered(s0, child, clo, chi, c as nat) == ordered(s0, ch, clo, chi, c as nat));
        assert forall|k: i32| #[trigger] node_lookup(s0, child, k, c as nat) == node_lookup(s0, ch, k, c as nat) by {}
    }
    let ghost mut is_split = false;
    let ghost mut o: int = 0;
    let ghost mut oh = ch;
    let ghost mut tp = e[0];
    let ghost s1;
    let ghost tlo: int;
    let ghost thi: int;
    let target;
    let slot;
    if child.is_full() {
        let ghost child0 = child;
        let child = if child.is_leaf() {
            child
        } else {
            pad(child, Ghost(s0), Ghost(c))
        };
        proof {
            if child0.children@.len() > 0 {
                lemma_pad_same(s0, child0, child, clo, chi, c as nat);
            }
        }
        let (left, top, right) = child.split_halves();
        proof {
            lemma_halves_fit(child, left, top, right, s0, c);
            lemma_halves_ordered(s0, child, left, top, right, clo, chi, c as nat);
            assert forall|k: i32| match_from(e, k, 0) == e.len() && descent_from(e, k, 0) == d implies
                #[trigger] node_lookup(s0, p, k, bound) == node_lookup(s0, child, k, c as nat) by {
                assert(node_lookup(s0, p, k, bound) == node_lookup(s0, ch, k, c as nat));
                assert(node_lookup(s0, child0, k, c as nat) == node_lookup(s0, ch, k, c as nat));
            }
        }
        let ghost before = n;
        if top.key == key {
            let lr = store.append_node(left);
            let ghost t1 = store.records@;
            assert(t1.subrange(0, s0.len() as int) =~= s0);
            proof {
                lemma_fits_extend(right, s0, t1);
            }
            let rr = store.append_node(right);
            let ghost t2 = store.records@;
            assert(t2.subrange(0, t1.len() as int) =~= t1);
            let vr = store.append_value(value);
            let ghost t3 = store.records@;
            assert(t3.subrange(0, t2.len() as int) =~= t2);
            proof {
                lemma_extends_trans(s0, t1, t2);
                lemma_extends_trans(s0, t2, t3);
                lemma_extends_trans(t1, t2, t3);
                lemma_fits_extend(before, s0, t3);
            }
            assert(t3[lr.offset as int] == t3.subrange(0, t1.len() as int)[lr.offset as int]);
            assert(t3[rr.offset as int] == t3.subrange(0, t2.len() as int)[rr.offset as int]);
            let x = NodeEntry { key, value_reference: vr };
            n.node_entries.insert(d, x);
            n.children.set(d, Some(lr));
            n.children.insert(d + 1, Some(lr));
            proof {
                lemma_promote(before, n, d as int, x, lr, t3);
            }
            let ghost mid = n;
            n.children.set(d + 1, Some(rr));
            proof {
                lemma_set_slot(mid, n, d + 1, rr, t3);
                assert(forall|j: int| 0 <= j < d ==> (#[trigger] n.node_entries@[j]) == e[j]);
                lemma_match_is(n.node_entries@, key, 0, d as int);
                assert(n.children@ =~= ch_set(e, before.children@, d as int, lr.offset, rr.offset));
                lemma_ordered_extend(s0, t3, left, clo, top.key as int, c as nat);
                lemma_ordered_extend(s0, t3, right, top.key as int, chi, c as nat);
                lemma_bound_raise(t3, left, clo, top.key as int, c as nat, lr.offset as nat);
                lemma_bound_raise(t3, right, top.key as int, chi, c as nat, rr.offset as nat);
                assert forall|k: i32|
                    k != key && k < x.key && match_from(e, k, 0) == e.len() && descent_from(e, k, 0) == d implies #[trigger] node_lookup(t3, t3[lr.offset as int]->Page_0, k, lr.offset as nat)
                    == node_lookup(s0, p, k, bound) by {
                    lemma_lookup_extend(s0, t3, left, k, c as nat);
                    assert(node_lookup(s0, p, k, bound) == node_lookup(s0, child, k, c as nat));
                }
                assert forall|k: i32|
                    k != key && k > x.key && match_from(e, k, 0) == e.len() && descent_from(e, k, 0) == d implies #[trigger] node_lookup(t3, t3[rr.offset as int]->Page_0, k, rr.offset as nat)
                    == node_lookup(s0, p, k, bound) by {
                    lemma_lookup_extend(s0, t3, right, k, c as nat);
                    assert(node_lookup(s0, p, k, bound) == node_lookup(s0, child, k, c as nat));
                }
                lemma_ordered_extend(s0, t3, p, lo, hi, bound);
                lemma_promote_frame(s0, t3, p, n, d as int, x, lr.offset, rr.offset, key, lo, hi, bound);
            }
            return n;
        }
        let ghost e1 = e.insert(d as int, top);
        assert forall|j: int| 0 <= j < e1.len() implies (#[trigger] e1[j]).key != key by {
            if j > d {
                assert(e1[j] == e[j - 1]);
            }
        }
        proof {
            lemma_match_is(e1, key, 0, e1.len() as int);
        }
        let other;
        if key < top.key {
            proof {
                lemma_descent_is(e1, key, 0, d as int);
            }
            other = store.append_node(right);
            target = left;
            slot = d;
            proof {
                tlo = slot_lo(e, lo, d as int);
                thi = top.key as int;
            }
        } else {
            proof {
                assert forall|j: int| 0 <= j < d + 1 implies !(key < (#[trigger] e1[j]).key) by {
                    if j < d {
                        assert(e1[j] == e[j]);
                    }
                }
                if d + 1 < e1.len() {
                    assert(e1[d + 1] == e[d as int]);
                }
                lemma_descent_is(e1, key, 0, d + 1);
            }
            other = store.append_node(left);
            target = right;
            slot = d + 1;
            proof {
                tlo = top.key as int;
                thi = slot_hi(e, hi, d as int);
            }
        }
        proof {
            s1 = store.records@;
            assert(s1.subrange(0, s0.len() as int) =~= s0);
            lemma_fits_extend(before, s0, s1);
            lemma_fits_extend(target, s0, s1);
            lemma_fits_extend(left, s0, s1);
            lemma_fits_extend(right, s0, s1);
        }
        n.node_entries.insert(d, top);
        n.children.set(d, Some(other));
        n.children.insert(d + 1, Some(other));
        proof {
            lemma_promote(before, n, d as int, top, other, s1);
            is_split = true;
            o = other.offset as int;
            oh = if key < top.key { right } else { left };
            tp = top;
            lemma_ordered_extend(s0, s1, target, tlo, thi, c as nat);
        }
    } else {
        proof {
            s1 = s0;
            assert(s0.subrange(0, s0.len() as int) =~= s0);
        }
        target = child;
        slot = d;
        proof {
            tlo = slot_lo(e, lo, d as int);
            thi = slot_hi(e, hi, d as int);
        }
    }
    assert(match_from(n.node_entries@, key, 0) == n.node_entries@.len());
    assert(descent_from(n.node_entries@, key, 0) == slot);
    let res = insert_rec(target, store, key, value, Ghost(c as nat), Ghost(tlo), Ghost(thi));
    let ghost s2 = store.records@;
    let rr = store.append_node(res);
    let ghost s3 = store.records@;
    assert(s3.subrange(0, s2.len() as int) =~= s2);
    proof {
        lemma_extends_trans(s0, s1, s2);
        lemma_extends_trans(s0, s2, s3);
        lemma_extends_trans(s1, s2, s3);
        lemma_fits_extend(n, s1, s3);
        lemma_lookup_extend(s2, s3, res, key, s2.len() as nat);
    }
    let ghost before = n;
    n.children.set(slot, Some(rr));
    proof {
        lemma_set_slot(before, n, slot as int, rr, s3);
        lemma_ordered_extend(s2, s3, res, tlo, thi, s2.len() as nat);
        assert forall|k: i32| k != key implies #[trigger] node_lookup(s3, s3[rr.offset as int]->Page_0, k, rr.offset as nat)
            == node_lookup(s0, target, k, c as nat) by {
            lemma_lookup_extend(s2, s3, res, k, s2.len() as nat);
            lemma_lookup_extend(s0, s1, target, k, c as nat);
        }
        if !is_split {
            assert forall|k: i32|
                k != key && match_from(e, k, 0) == e.len() && descent_from(e, k, 0) == d implies #[trigger] node_lookup(
                s3,
                s3[rr.offset as int]->Page_0,
                k,
                rr.offset as nat,
            ) == node_lookup(s0, p, k, bound) by {
                assert(node_lookup(s0, p, k, bound) == node_lookup(s0, ch, k, c as nat));
            }
            lemma_replace_slot(s0, s3, p, n, d as int, rr.offset, key, lo, hi, bound);
        } else {
            assert(s3[o] == s3.subrange(0, s1.len() as int)[o]);
            lemma_ordered_extend(s0, s3, oh, if slot == d { tp.key as int } else { clo }, if slot == d { chi } else { tp.key as int }, c as nat);
            lemma_bound_raise(s3, oh, if slot == d { tp.key as int } else { clo }, if slot == d { chi } else { tp.key as int }, c as nat, o as nat);
            assert forall|k: i32| k != key implies #[trigger] node_lookup(s3, s3[o]->Page_0, k, o as nat)
                == node_lookup(s0, oh, k, c as nat) by {
                lemma_lookup_extend(s0, s3, oh, k, c as nat);
            }
            lemma_route_to_slot(s0, p, tp.key, d as int, lo, hi, bound);
            assert(s3[tp.value_reference.offset as int] == s3.subrange(0, s0.len() as int)[tp.value_reference.offset as int]);
            if slot == d {
                assert(n.children@ =~= ch_set(e, p.children@, d as int, rr.offset, o as usize));
                lemma_promote_frame(s0, s3, p, n, d as int, tp, rr.offset, o as usize, key, lo, hi, bound);
            } else {
                assert(n.children@ =~= ch_set(e, p.children@, d as int, o as usize, rr.offset));
                lemma_promote_frame(s0, s3, p, n, d as int, tp, o as usize, rr.offset, key, lo, hi, bound);
            }
        }
    }
    n
}

/// The slots of a node after slot `d` is split into slots at `ia` and `ib`.
pub open spec fn ch_set(e: Seq<NodeEntry>, c: Seq<Option<NodeReference>>, d: int, ia: usize, ib: usize) -> Seq<Option<NodeReference>> {
    c.update(d, Some(NodeReference { offset: ia })).insert(d + 1, Some(NodeReference { offset: ib }))
}

impl ValueReference {
    /// Writes a text payload to the log and returns its handle.
    pub fn new(store: &mut Store, value: String) -> (r: ValueReference)
        requires
            old(store).wf(),
        ensures
            final(store).wf(),
            final(store).records@ == old(store).records@.push(Record::Text(value)),
            r.offset == old(store).records@.len(),
    {
        store.append_value(value)
    }

    /// Reads the text that the handle points to.
    pub fn get_value(&self, store: &Store) -> (r: Option<String>)
        ensures
            match r {
                Some(s) => value_at(store.records@, self.offset as int) == Some(s@),
                None => value_at(store.records@, self.offset as int) is None,
            },
    {
        if self.offset < store.records.len() {
            match &store.records[self.offset] {
                Record::Text(s) => Some(s.clone()),
                Record::Page(_) => None,
            }
        } else {
            None
        }
    }
}

impl Node {
    pub fn is_full(&self) -> (r: bool)
        ensures
            r == (self.node_entries@.len() == MAX_NODE_SIZE),
    {
        self.node_entries.len() == MAX_NODE_SIZE
    }

    pub fn is_empty(&self) -> (r: bool)
        ensures
            r == (self.node_entries@.len() == 0),
    {
        self.node_entries.len() == 0
    }

    pub fn is_leaf(&self) -> (r: bool)
        ensures
            r == (self.children@.len() == 0),
    {
        self.children.len() == 0
    }

    /// Inserts `key` with `value` below this node and returns the node's new
    /// version; every node changed on the way down is written anew.
    pub fn insert_entry(&self, store: &mut Store, key: i32, value: String) -> (r: Node)
        requires
            old(store).wf(),
            self.fits(old(store).records@),
            ordered(old(store).records@, *self, key_floor(), key_ceiling(), old(store).records@.len() as nat),
        ensures
            final(store).wf(),
            extends(old(store).records@, final(store).records@),
            r.fits(final(store).records@),
            node_lookup(final(store).records@, r, key, final(store).records@.len() as nat) == Some(
                value@,
            ),
            ordered(final(store).records@, r, key_floor(), key_ceiling(), final(store).records@.len() as nat),
            forall|k: i32|
                k != key ==> #[trigger] node_lookup(
                    final(store).records@,
                    r,
                    k,
                    final(store).records@.len() as nat,
                ) == node_lookup(old(store).records@, *self, k, old(store).records@.len() as nat),
            self.children@.len() == 0 ==> leaf_inserted(old(store).records@, final(store).records@, *self, key, r),
    {
        let n = self.duplicate();
        let ghost s0 = store.records@;
        proof {
            assert(leaf_inserted(s0, s0, n, key, n) == leaf_inserted(s0, s0, *self, key, n));
            assert(ordered(s0, n, key_floor(), key_ceiling(), s0.len() as nat) == ordered(s0, *self, key_floor(), key_ceiling(), s0.len() as nat));
            assert forall|k: i32| #[trigger] node_lookup(s0, n, k, s0.len() as nat) == node_lookup(s0, *self, k, s0.len() as nat) by {}
        }
        let ghost n0 = n;
        let r = insert_rec(n, store, key, value, Ghost(store.records@.len() as nat), Ghost(key_floor()), Ghost(key_ceiling()));
        assert(leaf_inserted(s0, store.records@, n0, key, r) == leaf_inserted(s0, store.records@, *self, key, r));
        r
    }

    /// Looks `key` up from this node, descending through child handles
    /// below `bound`.
    pub(crate) fn get_below(&self, store: &Store, key: i32, bound: usize) -> (r: Result<String, BTreeException>)
        requires
            store.wf(),
            bound <= store.records@.len(),
            self.fits(store.records@),
            self.refs_below(bound as int),
        ensures
            reports(node_lookup(store.records@, *self, key, bound as nat), r),
        decreases bound,
    {
        if self.is_empty() {
            return Err(BTreeException::ElementNotFound);
        }
        let m = find_key(&self.node_entries, key);
        if m < self.node_entries.len() {
            return match self.node_entries[m].value_reference.get_value(store) {
                Some(s) => Ok(s),
                None => Err(BTreeException::CorruptRecord),
            };
        }
        let d = descent_index(&self.node_entries, key);
        if d < self.children.len() {
            match self.children[d] {
                Some(c) => {
                    if c.offset < bound {
                        match &store.records[c.offset] {
                            Record::Page(child) => {
                                proof {
                                    assert(record_ok(store.records@, c.offset as int));
                                    lemma_fits_extend(*child, store.records@.subrange(0, c.offset as int), store.records@);
                                }
                                child.get_below(store, key, c.offset)
                            },
                            Record::Text(_) => Err(BTreeException::CorruptRecord),
                        }
                    } else {
                        Err(BTreeException::CorruptRecord)
                    }
                },
                None => Err(BTreeException::ElementNotFound),
            }
        } else {
            Err(BTreeException::ElementNotFound)
        }
    }

    /// Whether this node is a search tree over `(lo, hi)`, following child
    /// handles below `bound`.
    pub fn check_ordered(&self, store: &Store, lo: i64, hi: i64, bound: usize) -> (r: bool)
        requires
            store.wf(),
            bound <= store.records@.len(),
            self.shape_ok(),
        ensures
            r == ordered(store.records@, *self, lo as int, hi as int, bound as nat),
        decreases bound,
    {
        let e = &self.node_entries;
        let ne = e.len();
        let mut i: usize = 0;
        while i < ne
            invariant
                i <= ne,
                ne == e@.len(),
                e == &self.node_entries,
                forall|j: int| 0 <= j < i ==> lo < #[trigger] e@[j].key < hi,
                forall|a: int, b: int| 0 <= a < b < i ==> #[trigger] e@[a].key < #[trigger] e@[b].key,
            decreases ne - i,
        {
            let k = e[i].key as i64;
            if !(lo < k && k < hi) {
                return false;
            }
            if i > 0 && e[i - 1].key >= e[i].key {
                assert(!sorted(e@)) by {
                    assert(!(e@[i - 1].key < e@[i as int].key));
                }
                return false;
            }
            assert forall|a: int, b: int| 0 <= a < b < i + 1 implies #[trigger] e@[a].key < #[trigger] e@[b].key by {
                if b == i && a < i - 1 {
                    assert(e@[a].key < e@[i - 1].key);
                }
            }
            i = i + 1;
        }
        let nc = self.children.len();
        let mut d: usize = 0;
        while d < nc
            invariant
                d <= nc,
                nc == self.children@.len(),
                ne == e@.len(),
                e == &self.node_entries,
                bound <= store.records@.len(),
                store.wf(),
                self.shape_ok(),
                forall|j: int| 0 <= j < ne ==> lo < #[trigger] e@[j].key < hi,
                sorted(e@),
                forall|j: int|
                    0 <= j < d && (#[trigger] self.children@[j]) is Some ==> {
                        let c = self.children@[j]->0.offset as int;
                        &&& c < bound
                        &&& c < store.records@.len()
                        &&& store.records@[c] is Page
                        &&& ordered(store.records@, store.records@[c]->Page_0, slot_lo(e@, lo as int, j), slot_hi(e@, hi as int, j), c as nat)
                    },
            decreases nc - d,
        {
            match self.children[d] {
                Some(c) => {
                    if c.offset >= bound {
                        return false;
                    }
                    let clo: i64 = if d == 0 { lo } else { e[d - 1].key as i64 };
                    let chi: i64 = if d < ne { e[d].key as i64 } else { hi };
                    match &store.records[c.offset] {
                        Record::Page(child) => {
                            assert(record_ok(store.records@, c.offset as int));
                            if !child.check_ordered(store, clo, chi, c.offset) {
                                return false;
                            }
                        },
                        Record::Text(_) => {
                            return false;
                        },
                    }
                },
                None => {},
            }
            d = d + 1;
        }
        true
    }

    /// Looks `key` up from this node through the whole log.
    pub fn get_entry(&self, store: &Store, key: i32) -> (r: Result<String, BTreeException>)
        requires
            store.wf(),
            self.fits(store.records@),
        ensures
            reports(node_lookup(store.records@, *self, key, store.records@.len() as nat), r),
    {
        self.get_below(store, key, store.records.len())
    }
}

} // verus!
