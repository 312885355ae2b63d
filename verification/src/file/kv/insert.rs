//! Inserting into a file index: where a key goes among the items of a leaf
//! page, and the steps of an insertion between reads and writes of the files.
use vstd::prelude::*;
use crate::key_order::{KeyOrder, compare_bytes, lex_le, lex_lt, lemma_lex_lt_total, lemma_lex_le_transitive, lemma_lex_lt_irreflexive};
use crate::file::kv::node::{LeafItem, LeafNode, LeafPageHeader, Node, NodePos, blank_slot, fit_key, is_item_inserted};
use crate::file::kv::FileHeader;

verus! {

/// What a page hands to its parent when it splits.
pub struct Populate {
    pub newKey: String,
    pub newLeftNode: NodePos,
    pub newRightNode: NodePos,
}

/// How an insertion into a file index ended without a split.
pub enum InsertCode {
    NotPop,
    Error,
}

/// The items' keys are in non-decreasing order.
pub open spec fn items_sorted(items: Seq<LeafItem>) -> bool {
    forall|i: int, j: int| #![trigger items[i], items[j]] 0 <= i < j < items.len() ==> lex_le(items[i].key@, items[j].key@)
}

/// Some item has key `key`.
pub open spec fn has_item_key(items: Seq<LeafItem>, key: Seq<u8>) -> bool {
    exists|i: int| 0 <= i < items.len() && #[trigger] items[i].key@ == key
}

/// Where a new key goes among the items of a leaf: before the first item
/// whose key is above it, or at the end.
pub fn leaf_insert_position(items: &[LeafItem], key: &[u8]) -> (pos: usize)
    ensures
        pos <= items@.len(),
        forall|j: int| 0 <= j < pos ==> lex_le(#[trigger] items@[j].key@, key@),
        pos < items@.len() ==> lex_lt(key@, items@[pos as int].key@),
{
    let mut i: usize = 0;
    while i < items.len()
        invariant
            i <= items@.len(),
            forall|j: int| 0 <= j < i ==> lex_le(#[trigger] items@[j].key@, key@),
        decreases items@.len() - i,
    {
        match compare_bytes(key, items[i].key.as_slice()) {
            KeyOrder::Less => return i,
            _ => {
                proof {
                    lemma_lex_lt_total(key@, items@[i as int].key@);
                }
            },
        }
        i = i + 1;
    }
    i
}

/// Binary search for an item with key `key`, halving the slice until one item is left.
///
/// A returned item has that key; where the items are in key order, nothing
/// is returned only when no item has the key.
pub fn binary_find<'a>(key: &[u8], items: &'a [LeafItem]) -> (r: Option<&'a LeafItem>)
    ensures
        r matches Some(it) ==> it.key@ == key@ && exists|i: int| 0 <= i < items@.len() && items@[i] == *it,
        r is None && items_sorted(items@) ==> !has_item_key(items@, key@),
{
    binary_find_range(key, items, 0, items.len())
}

fn binary_find_range<'a>(key: &[u8], items: &'a [LeafItem], lo: usize, hi: usize) -> (r: Option<&'a LeafItem>)
    requires
        lo <= hi <= items@.len(),
    ensures
        r matches Some(it) ==> it.key@ == key@ && exists|i: int| lo <= i < hi && items@[i] == *it,
        r is None && items_sorted(items@) ==> forall|i: int| lo <= i < hi ==> (#[trigger] items@[i]).key@ != key@,
    decreases hi - lo,
{
    let len = hi - lo;
    if len == 0 {
        return None;
    }
    if len == 1 {
        match compare_bytes(items[lo].key.as_slice(), key) {
            KeyOrder::Equal => return Some(&items[lo]),
            _ => return None,
        }
    }
    let mid = lo + len / 2;
    match compare_bytes(items[mid].key.as_slice(), key) {
        KeyOrder::Equal => Some(&items[mid]),
        KeyOrder::Greater => {
            let r = binary_find_range(key, items, lo, mid);
            proof {
                lemma_lex_lt_total(key@, items@[mid as int].key@);
                if r is None && items_sorted(items@) {
                    assert forall|i: int| lo <= i < hi implies (#[trigger] items@[i]).key@ != key@ by {
                        if i >= mid {
                            if i > mid {
                                assert(lex_le(items@[mid as int].key@, items@[i].key@));
                            }
                            lemma_lex_le_transitive(key@, items@[mid as int].key@, items@[i].key@);
                            lemma_lex_lt_irreflexive(key@);
                        }
                    }
                }
            }
            r
        },
        KeyOrder::Less => {
            let r = binary_find_range(key, items, mid, hi);
            proof {
                if r is None && items_sorted(items@) {
                    assert forall|i: int| lo <= i < hi implies (#[trigger] items@[i]).key@ != key@ by {
                        if i < mid {
                            assert(lex_le(items@[i].key@, items@[mid as int].key@));
                            lemma_lex_le_transitive(items@[i].key@, items@[mid as int].key@, key@);
                            lemma_lex_lt_irreflexive(key@);
                        }
                    }
                }
            }
            r
        },
    }
}

/// Where an insertion into a file index stands between its reads and writes.
pub enum InsertState {
    /// Nothing is done yet; `Started` begins.
    Begin,
    /// The root leaf page at `at` is being read; `PageRead` answers.
    AwaitPage { at: NodePos },
    /// The root leaf page, read from `at`, takes the key at `pos`; the value
    /// is being written to the data file, `ValueWritten` answers.
    RootRead { leaf: LeafNode, pos: usize, at: NodePos },
    /// No root page could be read: a blank page is to become the root; the
    /// value is being written to the data file, `ValueWritten` answers.
    NewRoot { leaf: LeafNode },
    /// The root page is being written to the index file; `PageWritten` answers.
    AwaitPageWrite,
    /// The header, with the root's new place, is being written; `HeaderWritten` answers.
    AwaitHeader,
    /// The insertion is over.
    Done,
}

/// What the files answered.
pub enum InsertEvent {
    /// The insertion begins.
    Started,
    /// The leaf page, where one could be read.
    PageRead(Option<LeafNode>),
    /// Where the value went in the data file, where it could be written.
    ValueWritten(Option<NodePos>),
    /// Where the page now lies in the index file, where it could be written.
    PageWritten(Option<NodePos>),
    /// Whether the header could be written.
    HeaderWritten(bool),
}

/// What to do with the files next.
pub enum InsertAction {
    /// Read the leaf page at this position of the index file.
    ReadPage(NodePos),
    /// Append the value to the data file.
    WriteValue,
    /// Append this page to the index file.
    WritePage(LeafNode),
    /// Write this page over the index file from the start of the position given.
    RewritePage(NodePos, LeafNode),
    /// Write the header at the start of the index file.
    WriteHeader,
    /// Stop, with this outcome.
    Finish(Result<Populate, InsertCode>),
}

/// A page of `size` blank slots whose keys are `key_max` zero bytes, with a default header.
pub open spec fn is_blank_page(leaf: LeafNode, size: nat, key_max: nat) -> bool {
    &&& leaf.items@.len() == size
    &&& forall|i: int| 0 <= i < size ==> blank_slot(#[trigger] leaf.items@[i], key_max)
    &&& leaf.header == (LeafPageHeader { pre: NodePos { startPos: 0, endPos: 0 }, next: NodePos { startPos: 0, endPos: 0 }, delNext: NodePos { startPos: 0, endPos: 0 } })
}

/// `new` is `old` with `key`, fitted to `key_max` bytes, and `value` in slot `pos`.
pub open spec fn is_slot_set(old: LeafNode, new: LeafNode, pos: int, key: Seq<u8>, value: NodePos, key_max: nat) -> bool {
    &&& 0 <= pos < old.items@.len()
    &&& new.header == old.header
    &&& new.items@.len() == old.items@.len()
    &&& forall|i: int| 0 <= i < new.items@.len() && i != pos ==> new.items@[i] == old.items@[i]
    &&& new.items@[pos].value == value
    &&& new.items@[pos].key@ == fit_key(key, key_max)
}

/// The insertion stops at once with this outcome, the header left as it was.
pub open spec fn stops(r: (InsertState, InsertAction), code: InsertCode) -> bool {
    &&& r.0 == InsertState::Done
    &&& r.1 == InsertAction::Finish(Err(code))
}

impl InsertState {
    /// One step of inserting `key` into the index whose header is `header`:
    /// from the state and what the files answered, the next state and what
    /// to do next.
    ///
    /// Where the root is an index page nothing is done. Where it is a leaf,
    /// its page is read; the key goes before the first item whose key is
    /// above it. Once the value is in the data file, an item of the key and
    /// the value's place is inserted there, and the page is written back
    /// over its place. Where no root page could be read, a blank page of
    /// `size` slots takes them in its first slot and is appended. Either
    /// way the header then records where the root page lies, and is
    /// written. Every insertion ends with `NotPop`, or with `Error` where a
    /// file fails, the slot lies past the page, or an answer does not fit
    /// the state.
    pub fn step(self, header: &mut FileHeader, key: &[u8], event: InsertEvent) -> (r: (InsertState, InsertAction))
        ensures
            ({
                let h = *old(header);
                match (self, event) {
                    (InsertState::Begin, InsertEvent::Started) => match h.root {
                        Node::Index(_) => stops(r, InsertCode::NotPop),
                        Node::Leaf(p) => r.0 == (InsertState::AwaitPage { at: p }) && r.1 == InsertAction::ReadPage(p),
                    },
                    (InsertState::AwaitPage { at }, InsertEvent::PageRead(Some(leaf))) => {
                        &&& r.0 matches InsertState::RootRead { leaf: l, pos, at: a }
                        &&& l == leaf
                        &&& a == at
                        &&& pos <= leaf.items@.len()
                        &&& forall|j: int| 0 <= j < pos ==> lex_le(#[trigger] leaf.items@[j].key@, key@)
                        &&& pos < leaf.items@.len() ==> lex_lt(key@, leaf.items@[pos as int].key@)
                        &&& r.1 == InsertAction::WriteValue
                    },
                    (InsertState::AwaitPage { at }, InsertEvent::PageRead(None)) => {
                        &&& r.0 matches InsertState::NewRoot { leaf }
                        &&& is_blank_page(leaf, h.size as nat, h.keyMax as nat)
                        &&& r.1 == InsertAction::WriteValue
                    },
                    (InsertState::RootRead { leaf, pos, at }, InsertEvent::ValueWritten(Some(np))) =>
                        if pos <= leaf.items@.len() {
                            &&& r.0 == InsertState::AwaitPageWrite
                            &&& r.1 matches InsertAction::RewritePage(a, page)
                            &&& a == at
                            &&& is_item_inserted(leaf, page, pos as int, key@, np, h.keyMax as nat)
                        } else {
                            stops(r, InsertCode::Error)
                        },
                    (InsertState::NewRoot { leaf }, InsertEvent::ValueWritten(Some(np))) =>
                        if leaf.items@.len() > 0 {
                            &&& r.0 == InsertState::AwaitPageWrite
                            &&& r.1 matches InsertAction::WritePage(page)
                            &&& is_slot_set(leaf, page, 0, key@, np, h.keyMax as nat)
                        } else {
                            stops(r, InsertCode::Error)
                        },
                    (InsertState::AwaitPageWrite, InsertEvent::PageWritten(Some(p))) => {
                        &&& r.0 == InsertState::AwaitHeader
                        &&& r.1 == InsertAction::WriteHeader
                    },
                    (InsertState::AwaitHeader, InsertEvent::HeaderWritten(written)) =>
                        stops(r, if written { InsertCode::NotPop } else { InsertCode::Error }),
                    _ => stops(r, InsertCode::Error),
                }
            }),
            (self is AwaitPageWrite && event matches InsertEvent::PageWritten(Some(p))) ==> {
                &&& final(header).root == Node::Leaf(event->PageWritten_0->0)
                &&& final(header).keyMax == old(header).keyMax
                &&& final(header).size == old(header).size
                &&& final(header).firstLeaf == old(header).firstLeaf
            },
            !(self is AwaitPageWrite && event matches InsertEvent::PageWritten(Some(p))) ==> *final(header) == *old(header),
    {
        match (self, event) {
            (InsertState::Begin, InsertEvent::Started) => match header.root {
                Node::Index(_) => (InsertState::Done, InsertAction::Finish(Err(InsertCode::NotPop))),
                Node::Leaf(p) => (InsertState::AwaitPage { at: p }, InsertAction::ReadPage(p)),
            },
            (InsertState::AwaitPage { at }, InsertEvent::PageRead(Some(leaf))) => {
                let pos = leaf_insert_position(leaf.items.as_slice(), key);
                (InsertState::RootRead { leaf, pos, at }, InsertAction::WriteValue)
            },
            (InsertState::AwaitPage { at }, InsertEvent::PageRead(None)) => {
                let leaf = LeafNode::blank(header.size, header.keyMax);
                (InsertState::NewRoot { leaf }, InsertAction::WriteValue)
            },
            (InsertState::RootRead { leaf, pos, at }, InsertEvent::ValueWritten(Some(np))) => {
                if pos <= leaf.items.len() {
                    let mut leaf = leaf;
                    leaf.insert_at(key, np, pos, header.keyMax);
                    (InsertState::AwaitPageWrite, InsertAction::RewritePage(at, leaf))
                } else {
                    (InsertState::Done, InsertAction::Finish(Err(InsertCode::Error)))
                }
            },
            (InsertState::NewRoot { leaf }, InsertEvent::ValueWritten(Some(np))) => {
                if leaf.items.len() > 0 {
                    let mut leaf = leaf;
                    leaf.set(key, np, 0, header.keyMax);
                    (InsertState::AwaitPageWrite, InsertAction::WritePage(leaf))
                } else {
                    (InsertState::Done, InsertAction::Finish(Err(InsertCode::Error)))
                }
            },
            (InsertState::AwaitPageWrite, InsertEvent::PageWritten(Some(p))) => {
                header.root = Node::Leaf(p);
                (InsertState::AwaitHeader, InsertAction::WriteHeader)
            },
            (InsertState::AwaitHeader, InsertEvent::HeaderWritten(written)) => {
                if written {
                    (InsertState::Done, InsertAction::Finish(Err(InsertCode::NotPop)))
                } else {
                    (InsertState::Done, InsertAction::Finish(Err(InsertCode::Error)))
                }
            },
            _ => (InsertState::Done, InsertAction::Finish(Err(InsertCode::Error))),
        }
    }
}

/// Whether an insertion that ended with `outcome` succeeded: only where it
/// handed a split back.
pub fn insert_succeeded(outcome: &Result<Populate, InsertCode>) -> (r: bool)
    ensures
        r == outcome is Ok,
{
    match outcome {
        Ok(_) => true,
        Err(_) => false,
    }
}

} // verus!
