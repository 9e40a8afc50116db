//! The append-only record log and the handles that address its records.
use vstd::prelude::*;

verus! {

/// Largest number of entries a node may hold; reaching it splits the node.
pub const MAX_NODE_SIZE: usize = 3;

/// Locates a text payload: the position of its record in the log.
#[derive(Clone, Copy, Debug, PartialEq, Eq, Structural)]
pub struct ValueReference {
    pub offset: usize,
}

/// Locates a node: the position of its record in the log.
#[derive(Clone, Copy, Debug, PartialEq, Eq, Structural)]
pub struct NodeReference {
    pub offset: usize,
}

#[derive(Clone, Copy, Debug)]
pub struct NodeEntry {
    pub key: i32,
    pub value_reference: ValueReference,
}

/// A page of the tree. A leaf has no child slots; an internal node has one
/// slot more than it has entries. A slot holding `None` stands for an empty
/// leaf that was never written.
#[derive(Debug)]
pub struct Node {
    pub node_entries: Vec<NodeEntry>,
    pub children: Vec<Option<NodeReference>>,
}

/// One immutable record of the log.
#[derive(Debug)]
pub enum Record {
    Text(String),
    Page(Node),
}

#[derive(Clone, Copy, Debug, PartialEq, Eq, Structural)]
pub enum BTreeException {
    /// The key has no value.
    ElementNotFound,
    /// A record or a root pointer does not fit the log it is read against.
    CorruptRecord,
}

/// Entries ordered by strictly ascending key.
pub open spec fn sorted(e: Seq<NodeEntry>) -> bool {
    forall|i: int, j: int| 0 <= i < j < e.len() ==> #[trigger] e[i].key < #[trigger] e[j].key
}

impl Node {
    /// Every handle that the node holds points before position `b`.
    pub open spec fn refs_below(&self, b: int) -> bool {
        &&& forall|i: int|
            0 <= i < self.node_entries@.len() ==> (#[trigger] self.node_entries@[i]).value_reference.offset < b
        &&& forall|i: int|
            0 <= i < self.children@.len() && (#[trigger] self.children@[i]) is Some
                ==> self.children@[i]->0.offset < b
    }

    /// A leaf has no slots; an internal node has an entry, and at most one
    /// slot more than entries.
    pub open spec fn shape_ok(&self) -> bool {
        self.children@.len() == 0 || (1 <= self.node_entries@.len() && self.children@.len()
            <= self.node_entries@.len() + 1)
    }

    /// The entries of a leaf are in ascending key order.
    pub open spec fn leaf_sorted(&self) -> bool {
        self.children@.len() == 0 ==> sorted(self.node_entries@)
    }

    /// Every handle the node holds names a record of the right kind.
    pub open spec fn refs_typed(&self, records: Seq<Record>) -> bool {
        &&& forall|i: int|
            0 <= i < self.node_entries@.len() ==> records[
                (#[trigger] self.node_entries@[i]).value_reference.offset as int] is Text
        &&& forall|i: int|
            0 <= i < self.children@.len() && (#[trigger] self.children@[i]) is Some
                ==> records[self.children@[i]->0.offset as int] is Page
    }

    /// The node can be written to a log of `records`, after all it points to.
    pub open spec fn fits(&self, records: Seq<Record>) -> bool {
        &&& self.refs_below(records.len() as int)
        &&& self.shape_ok()
        &&& self.leaf_sorted()
        &&& self.refs_typed(records)
    }
}

/// The record at `p` is a text, or a node that points only backwards.
pub open spec fn record_ok(records: Seq<Record>, p: int) -> bool {
    records[p] is Page ==> records[p]->Page_0.fits(records.subrange(0, p))
}

pub open spec fn records_ok(records: Seq<Record>) -> bool {
    forall|p: int| 0 <= p < records.len() ==> #[trigger] record_ok(records, p)
}

/// `a` is an earlier state of the log `b`.
pub open spec fn extends(a: Seq<Record>, b: Seq<Record>) -> bool {
    a.len() <= b.len() && b.subrange(0, a.len() as int) == a
}

/// The append-only log. Records are never changed once written.
pub struct Store {
    pub records: Vec<Record>,
}

impl Store {
    pub open spec fn wf(&self) -> bool {
        records_ok(self.records@)
    }

    pub fn new() -> (r: Store)
        ensures
            r.wf(),
            r.records@.len() == 0,
    {
        Store { records: Vec::new() }
    }

    pub fn len(&self) -> (r: usize)
        ensures
            r == self.records@.len(),
    {
        self.records.len()
    }

    /// Whether `n` can be appended to the log as it stands.
    pub fn node_fits(&self, n: &Node) -> (r: bool)
        ensures
            r == n.fits(self.records@),
    {
        let len = self.records.len();
        let ne = n.node_entries.len();
        let nc = n.children.len();
        if nc != 0 && (ne == 0 || nc - 1 > ne) {
            return false;
        }
        let mut i: usize = 0;
        while i < ne
            invariant
                i <= ne,
                ne == n.node_entries@.len(),
                len == self.records@.len(),
                forall|j: int|
                    0 <= j < i ==> (#[trigger] n.node_entries@[j]).value_reference.offset < len
                        && self.records@[n.node_entries@[j].value_reference.offset as int] is Text,
            decreases ne - i,
        {
            let o = n.node_entries[i].value_reference.offset;
            if o >= len {
                return false;
            }
            match &self.records[o] {
                Record::Text(_) => {},
                Record::Page(_) => {
                    return false;
                },
            }
            i = i + 1;
        }
        let mut i: usize = 0;
        while i < nc
            invariant
                i <= nc,
                nc == n.children@.len(),
                len == self.records@.len(),
                forall|j: int|
                    0 <= j < i && (#[trigger] n.children@[j]) is Some ==> n.children@[j]->0.offset
                        < len && self.records@[n.children@[j]->0.offset as int] is Page,
            decreases nc - i,
        {
            match n.children[i] {
                Some(c) => {
                    if c.offset >= len {
                        return false;
                    }
                    match &self.records[c.offset] {
                        Record::Page(_) => {},
                        Record::Text(_) => {
                            return false;
                        },
                    }
                },
                None => {},
            }
            i = i + 1;
        }
        if nc == 0 && ne > 1 {
            let mut i: usize = 1;
            while i < ne
                invariant
                    1 <= i <= ne,
                    ne == n.node_entries@.len(),
                    nc == n.children@.len(),
                    nc == 0,
                    forall|a: int, b: int|
                        0 <= a < b < i ==> #[trigger] n.node_entries@[a].key
                            < #[trigger] n.node_entries@[b].key,
                decreases ne - i,
            {
                if n.node_entries[i - 1].key >= n.node_entries[i].key {
                    let ghost a = n.node_entries@[i - 1];
                    let ghost b = n.node_entries@[i as int];
                    assert(!(a.key < b.key));
                    assert(!sorted(n.node_entries@));
                    assert(!n.leaf_sorted());
                    return false;
                }
                assert forall|a: int, b: int| 0 <= a < b < i + 1 implies #[trigger] n.node_entries@[a].key
                    < #[trigger] n.node_entries@[b].key by {
                    if b == i && a < i - 1 {
                        assert(n.node_entries@[a].key < n.node_entries@[i - 1].key);
                    }
                }
                i = i + 1;
            }
        }
        true
    }

    /// Appends a record read back from storage, refusing a node that points
    /// forwards, at a record of the wrong kind, or that breaks a node's shape.
    pub fn push_record(&mut self, r: Record) -> (res: Result<(), BTreeException>)
        requires
            old(self).wf(),
        ensures
            final(self).wf(),
            match res {
                Ok(()) => final(self).records@ == old(self).records@.push(r),
                Err(x) => {
                    &&& final(self).records@ == old(self).records@
                    &&& x == BTreeException::CorruptRecord
                    &&& r is Page
                    &&& !r->Page_0.fits(old(self).records@)
                },
            },
    {
        match r {
            Record::Text(v) => {
                self.append_value(v);
                Ok(())
            },
            Record::Page(n) => {
                if self.node_fits(&n) {
                    self.append_node(n);
                    Ok(())
                } else {
                    Err(BTreeException::CorruptRecord)
                }
            },
        }
    }

    /// Appends a text payload and returns its handle.
    pub fn append_value(&mut self, value: String) -> (r: ValueReference)
        requires
            old(self).wf(),
        ensures
            final(self).wf(),
            final(self).records@ == old(self).records@.push(Record::Text(value)),
            r.offset == old(self).records@.len(),
    {
        let r = ValueReference { offset: self.records.len() };
        proof {
            lemma_push_text(self.records@, value);
        }
        self.records.push(Record::Text(value));
        r
    }

    /// Appends a node whose handles point into the log, and returns its handle.
    pub fn append_node(&mut self, node: Node) -> (r: NodeReference)
        requires
            old(self).wf(),
            node.fits(old(self).records@),
        ensures
            final(self).wf(),
            final(self).records@ == old(self).records@.push(Record::Page(node)),
            r.offset == old(self).records@.len(),
    {
        let r = NodeReference { offset: self.records.len() };
        proof {
            lemma_push_page(self.records@, node);
        }
        self.records.push(Record::Page(node));
        r
    }
}

/// Appending keeps what holds of a node in the shorter log.
pub proof fn lemma_fits_extend(n: Node, a: Seq<Record>, b: Seq<Record>)
    requires
        n.fits(a),
        extends(a, b),
    ensures
        n.fits(b),
{
    assert forall|i: int| 0 <= i < n.node_entries@.len() implies b[
        (#[trigger] n.node_entries@[i]).value_reference.offset as int] is Text by {
        assert(b[n.node_entries@[i].value_reference.offset as int] == a[n.node_entries@[i].value_reference.offset as int]);
    }
    assert forall|i: int| 0 <= i < n.children@.len() && (#[trigger] n.children@[i]) is Some implies b[
        n.children@[i]->0.offset as int] is Page by {
        assert(b[n.children@[i]->0.offset as int] == a[n.children@[i]->0.offset as int]);
    }
}

pub proof fn lemma_extends_trans(a: Seq<Record>, b: Seq<Record>, c: Seq<Record>)
    requires
        extends(a, b),
        extends(b, c),
    ensures
        extends(a, c),
{
    assert forall|i: int| 0 <= i < a.len() implies c.subrange(0, a.len() as int)[i] == a[i] by {
        assert(c[i] == c.subrange(0, b.len() as int)[i]);
        assert(b[i] == b.subrange(0, a.len() as int)[i]);
    }
    assert(c.subrange(0, a.len() as int) =~= a);
}

pub proof fn lemma_push_text(records: Seq<Record>, value: String)
    requires
        records_ok(records),
    ensures
        records_ok(records.push(Record::Text(value))),
{
    let b = records.push(Record::Text(value));
    assert forall|p: int| 0 <= p < b.len() implies #[trigger] record_ok(b, p) by {
        if p < records.len() {
            assert(record_ok(records, p));
            assert(b.subrange(0, p) =~= records.subrange(0, p));
        }
    }
}

pub proof fn lemma_push_page(records: Seq<Record>, node: Node)
    requires
        records_ok(records),
        node.fits(records),
    ensures
        records_ok(records.push(Record::Page(node))),
{
    let b = records.push(Record::Page(node));
    assert forall|p: int| 0 <= p < b.len() implies #[trigger] record_ok(b, p) by {
        if p < records.len() {
            assert(record_ok(records, p));
            assert(b.subrange(0, p) =~= records.subrange(0, p));
        } else {
            assert(b.subrange(0, p) =~= records);
        }
    }
}

} // verus!
