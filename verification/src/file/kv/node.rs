//! The records of a file index: positions in its files, leaf pages and their items.
use vstd::prelude::*;


verus! {

/// A byte range of a file: `startPos` up to `endPos`.
#[derive(Debug, Clone, Copy, PartialEq, Eq, Structural)]
pub struct NodePos {
    pub startPos: usize,
    pub endPos: usize,
}

/// A byte range of a named data file.
#[derive(Debug)]
pub struct DataPos {
    pub fileName: String,
    pub startPos: usize,
    pub endPos: usize,
}

impl Default for NodePos {
    fn default() -> (r: Self)
        ensures
            r.startPos == 0 && r.endPos == 0,
    {
        Self { startPos: 0, endPos: 0 }
    }
}

impl NodePos {
    /// The range of `len` bytes that starts at `start`.
    pub fn span(start: usize, len: usize) -> (r: NodePos)
        requires
            start + len <= usize::MAX,
        ensures
            r.startPos == start,
            r.endPos == start + len,
    {
        NodePos { startPos: start, endPos: start + len }
    }
}

/// The header of a leaf page: its neighbours, and where it sits in the
/// queue of deleted pages once it is deleted.
#[derive(Debug, Clone, Copy, PartialEq, Eq, Structural)]
pub struct LeafPageHeader {
    pub pre: NodePos,
    pub next: NodePos,
    pub delNext: NodePos,
}

impl Default for LeafPageHeader {
    fn default() -> (r: Self)
        ensures
            r.pre == (NodePos { startPos: 0, endPos: 0 }),
            r.next == (NodePos { startPos: 0, endPos: 0 }),
            r.delNext == (NodePos { startPos: 0, endPos: 0 }),
    {
        Self { pre: NodePos::default(), next: NodePos::default(), delNext: NodePos::default() }
    }
}

/// A key of a leaf page and where its value lies in the data file.
#[derive(Debug)]
pub struct LeafItem {
    pub key: Vec<u8>,
    pub value: NodePos,
}

/// A leaf page: its header and its item slots.
#[derive(Debug)]
pub struct LeafNode {
    pub header: LeafPageHeader,
    pub items: Vec<LeafItem>,
}

/// An index page: separator keys and the positions of its children.
#[derive(Debug)]
pub struct IndexNode {
    pub keys: Vec<String>,
    pub nodes: Vec<NodePos>,
}

/// Where the page of a tree lies, and what kind it is.
#[derive(Debug, Clone, Copy, PartialEq, Eq, Structural)]
pub enum Node {
    Index(NodePos),
    Leaf(NodePos),
}

impl Default for Node {
    fn default() -> (r: Self)
        ensures
            r == Node::Leaf(NodePos { startPos: 0, endPos: 0 }),
    {
        Node::Leaf(NodePos::default())
    }
}

/// `size` empty slots, each with a key of `key_max` zero bytes.
pub open spec fn blank_slot(item: LeafItem, key_max: nat) -> bool {
    &&& item.key@ == Seq::new(key_max, |i: int| 0u8)
    &&& item.value == (NodePos { startPos: 0, endPos: 0 })
}

impl LeafNode {
    /// A new leaf page with `size` empty slots whose keys are `key_max`
    /// zero bytes, and a default header.
    pub fn blank(size: usize, key_max: usize) -> (r: LeafNode)
        ensures
            r.items@.len() == size,
            forall|i: int| 0 <= i < size ==> blank_slot(#[trigger] r.items@[i], key_max as nat),
            r.header == (LeafPageHeader { pre: NodePos { startPos: 0, endPos: 0 }, next: NodePos { startPos: 0, endPos: 0 }, delNext: NodePos { startPos: 0, endPos: 0 } }),
    {
        let mut items: Vec<LeafItem> = Vec::new();
        let mut i: usize = 0;
        while i < size
            invariant
                i <= size,
                items@.len() == i,
                forall|j: int| 0 <= j < i ==> blank_slot(#[trigger] items@[j], key_max as nat),
            decreases size - i,
        {
            let mut k: Vec<u8> = Vec::new();
            let mut j: usize = 0;
            while j < key_max
                invariant
                    j <= key_max,
                    k@ == Seq::new(j as nat, |x: int| 0u8),
                decreases key_max - j,
            {
                k.push(0u8);
                j = j + 1;
                assert(k@ =~= Seq::new(j as nat, |x: int| 0u8));
            }
            items.push(LeafItem { key: k, value: NodePos::default() });
            i = i + 1;
        }
        LeafNode { header: LeafPageHeader::default(), items }
    }

    /// Writes `key`, padded with zero bytes or cut to `key_max` bytes, and
    /// `value` into slot `pos`.
    pub fn set(&mut self, key: &[u8], value: NodePos, pos: usize, key_max: usize)
        requires
            pos < old(self).items@.len(),
        ensures
            final(self).header == old(self).header,
            final(self).items@.len() == old(self).items@.len(),
            forall|i: int| 0 <= i < final(self).items@.len() && i != pos ==> final(self).items@[i] == old(self).items@[i],
            final(self).items@[pos as int].value == value,
            final(self).items@[pos as int].key@ == fit_key(key@, key_max as nat),
    {
        let k = fitted_key(key, key_max);
        self.items.set(pos, LeafItem { key: k, value });
    }

    /// Inserts an item of `key`, padded with zero bytes or cut to `key_max`
    /// bytes, and `value` at `pos`; the items from `pos` on move one slot up.
    pub fn insert_at(&mut self, key: &[u8], value: NodePos, pos: usize, key_max: usize)
        requires
            pos <= old(self).items@.len(),
        ensures
            is_item_inserted(*old(self), *final(self), pos as int, key@, value, key_max as nat),
    {
        let k = fitted_key(key, key_max);
        self.items.insert(pos, LeafItem { key: k, value });
    }
}

/// `new` is `old` with an item of `key`, fitted to `key_max` bytes, and
/// `value` inserted at `pos`.
pub open spec fn is_item_inserted(old: LeafNode, new: LeafNode, pos: int, key: Seq<u8>, value: NodePos, key_max: nat) -> bool {
    &&& 0 <= pos <= old.items@.len()
    &&& new.header == old.header
    &&& new.items@.len() == old.items@.len() + 1
    &&& forall|i: int| 0 <= i < pos ==> new.items@[i] == old.items@[i]
    &&& forall|i: int| pos < i < new.items@.len() ==> new.items@[i] == old.items@[i - 1]
    &&& new.items@[pos].value == value
    &&& new.items@[pos].key@ == fit_key(key, key_max)
}

/// `key` padded with zero bytes or cut to `key_max` bytes.
fn fitted_key(key: &[u8], key_max: usize) -> (k: Vec<u8>)
    ensures
        k@ == fit_key(key@, key_max as nat),
{
    let mut k: Vec<u8> = Vec::new();
    let mut i: usize = 0;
    while i < key_max
        invariant
            i <= key_max,
            k@ == fit_key(key@, key_max as nat).subrange(0, i as int),
        decreases key_max - i,
    {
        if i < key.len() {
            k.push(key[i]);
        } else {
            k.push(0u8);
        }
        i = i + 1;
        assert(k@ =~= fit_key(key@, key_max as nat).subrange(0, i as int));
    }
    assert(k@ =~= fit_key(key@, key_max as nat));
    k
}

/// `key` made `key_max` bytes long: cut, or padded with zero bytes.
pub open spec fn fit_key(key: Seq<u8>, key_max: nat) -> Seq<u8> {
    Seq::new(key_max, |i: int| if i < key.len() { key[i] } else { 0u8 })
}

} // verus!
