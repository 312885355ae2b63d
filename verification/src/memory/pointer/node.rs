//! The nodes of the in-memory B+ tree and what they hold.
use vstd::prelude::*;
use vstd::utf8::encode_utf8;
use crate::key_order::{lex_le, lex_lt};

verus! {

/// One key and its value, kept in a leaf.
#[derive(Clone, Debug)]
pub struct Item {
    pub key: String,
    pub value: String,
}

/// A leaf page: its items, in key order.
pub struct LeafNode {
    pub items: Vec<Item>,
}

/// An index page: separator keys and one more child than keys.
pub struct IndexNode {
    pub keys: Vec<String>,
    pub nodes: Vec<Node>,
}

/// A page of the tree.
pub enum Node {
    Index(IndexNode),
    Leaf(LeafNode),
}

/// What a page hands to its parent when it splits: the separator between
/// the two halves, and the halves.
pub struct Populate {
    pub new_key: String,
    pub new_left_node: Node,
    pub new_right_node: Node,
}

/// How a removal below a page ended, as seen by that page.
pub enum RemoveContinue {
    /// Nothing was merged away.
    Normal,
    /// Two children were merged and the parent lost a separator.
    ParentBeRemove,
}

/// What a removal reports to the page above.
pub enum RemoveResult {
    /// The key was not in the leaf the search reached.
    NotFound,
    /// The key was removed and nothing above needs to change.
    End,
    /// The key was removed; the page above checks its children.
    Continue(RemoveContinue),
}

/// The key of an entry, as the bytes that order it.
pub open spec fn key_of(s: String) -> Seq<u8> {
    encode_utf8(s@)
}

/// What the tree holds for one item: its key bytes and its value.
pub type Entry = (Seq<u8>, Seq<char>);

impl Item {
    /// What the item holds: its key's bytes and its value.
    pub open spec fn entry(self) -> Entry {
        (key_of(self.key), self.value@)
    }

    pub fn new(key: String, value: String) -> (r: Item)
        ensures
            r.key == key,
            r.value == value,
    {
        Self { key: key, value: value }
    }
}

pub open spec fn items_entries(items: Seq<Item>) -> Seq<Entry> {
    items.map_values(|it: Item| it.entry())
}

impl Node {
    /// The entries of the subtree, leaf by leaf from left to right.
    pub open spec fn entries(self) -> Seq<Entry>
        decreases self, 0nat,
    {
        match self {
            Node::Leaf(l) => items_entries(l.items@),
            Node::Index(ix) => nodes_entries(ix.nodes@),
        }
    }
}

pub open spec fn nodes_entries(s: Seq<Node>) -> Seq<Entry>
    decreases s, 1nat,
{
    if s.len() == 0 {
        Seq::empty()
    } else {
        nodes_entries(s.drop_last()) + s.last().entries()
    }
}

} // verus!

verus! {

/// `k` lies between the bounds of a subtree: at or above `lo`, and below
/// `hi` (at or below `hi` where `strict` is false).
pub open spec fn in_bounds(k: Seq<u8>, lo: Option<Seq<u8>>, hi: Option<Seq<u8>>, strict: bool) -> bool {
    &&& (lo matches Some(l) ==> lex_le(l, k))
    &&& (hi matches Some(h) ==> if strict { lex_lt(k, h) } else { lex_le(k, h) })
}

/// A separator may equal either bound of the node that holds it.
pub open spec fn sep_in_bounds(k: Seq<u8>, lo: Option<Seq<u8>>, hi: Option<Seq<u8>>) -> bool {
    in_bounds(k, lo, hi, false)
}

pub open spec fn all_in_bounds(s: Seq<Entry>, lo: Option<Seq<u8>>, hi: Option<Seq<u8>>, strict: bool) -> bool {
    forall|i: int| #![trigger s[i]] 0 <= i < s.len() ==> in_bounds(s[i].0, lo, hi, strict)
}

/// Entries in non-decreasing key order.
pub open spec fn sorted(s: Seq<Entry>) -> bool {
    forall|i: int, j: int| #![trigger s[i], s[j]] 0 <= i < j < s.len() ==> lex_le(s[i].0, s[j].0)
}

/// Entries in increasing key order: no key occurs twice.
pub open spec fn strictly_sorted(s: Seq<Entry>) -> bool {
    forall|i: int, j: int| #![trigger s[i], s[j]] 0 <= i < j < s.len() ==> lex_lt(s[i].0, s[j].0)
}

/// Separator keys in non-decreasing order.
pub open spec fn keys_sorted(keys: Seq<String>) -> bool {
    forall|i: int, j: int| #![trigger keys[i], keys[j]] 0 <= i < j < keys.len() ==> lex_le(key_of(keys[i]), key_of(keys[j]))
}

/// Lower bound of the `i`-th child of an index page with separators `keys`.
pub open spec fn child_lo(keys: Seq<String>, lo: Option<Seq<u8>>, i: int) -> Option<Seq<u8>> {
    if i == 0 { lo } else { Some(key_of(keys[i - 1])) }
}

/// Upper bound of the `i`-th child of an index page with separators `keys`.
pub open spec fn child_hi(keys: Seq<String>, hi: Option<Seq<u8>>, i: int) -> Option<Seq<u8>> {
    if i >= keys.len() { hi } else { Some(key_of(keys[i])) }
}

/// The items of a leaf are in key order and within its bounds.
pub open spec fn leaf_wf(items: Seq<Item>, lo: Option<Seq<u8>>, hi: Option<Seq<u8>>, strict: bool) -> bool {
    &&& sorted(items_entries(items))
    &&& all_in_bounds(items_entries(items), lo, hi, strict)
}

/// An index page with separators `keys` over children `nodes` is a search
/// tree whose entries lie within `lo` and `hi`.
pub open spec fn index_wf(keys: Seq<String>, nodes: Seq<Node>, lo: Option<Seq<u8>>, hi: Option<Seq<u8>>, strict: bool) -> bool
    decreases nodes, 0nat,
{
    &&& nodes.len() == keys.len() + 1
    &&& keys_sorted(keys)
    &&& forall|i: int| #![trigger keys[i]] 0 <= i < keys.len() ==> sep_in_bounds(key_of(keys[i]), lo, hi)
    &&& forall|i: int| #![trigger nodes[i]] 0 <= i < nodes.len()
            ==> nodes[i].wf(child_lo(keys, lo, i), child_hi(keys, hi, i), strict)
}

impl Node {
    /// The subtree is a search tree whose entries lie within `lo` and `hi`.
    pub open spec fn wf(self, lo: Option<Seq<u8>>, hi: Option<Seq<u8>>, strict: bool) -> bool
        decreases self, 1nat,
    {
        match self {
            Node::Leaf(l) => leaf_wf(l.items@, lo, hi, strict),
            Node::Index(ix) => index_wf(ix.keys@, ix.nodes@, lo, hi, strict),
        }
    }
}

impl Node {
    /// Every leaf of the subtree lies `d` levels below it.
    pub open spec fn balanced(self, d: nat) -> bool
        decreases self,
    {
        match self {
            Node::Leaf(_) => d == 0,
            Node::Index(ix) => {
                &&& d > 0
                &&& forall|i: int| #![trigger ix.nodes@[i]] 0 <= i < ix.nodes@.len() ==> ix.nodes@[i].balanced((d - 1) as nat)
            },
        }
    }
}

/// Every subtree of the list has all its leaves `d` levels below it.
pub open spec fn all_balanced(nodes: Seq<Node>, d: nat) -> bool {
    forall|i: int| #![trigger nodes[i]] 0 <= i < nodes.len() ==> nodes[i].balanced(d)
}

/// How full a page is: its items, or its separators.
pub open spec fn fill(n: Node) -> nat {
    match n {
        Node::Leaf(l) => l.items@.len(),
        Node::Index(ix) => ix.keys@.len(),
    }
}

/// Half of the order of a tree, rounded up: the fewest items a leaf other
/// than the root holds.
pub open spec fn half_of(size: nat) -> nat {
    (size + 1) / 2
}

impl Node {
    /// A leaf with at least `half` items, or an index page with at least one
    /// separator whose pages below are all so.
    pub open spec fn filled(self, half: nat) -> bool
        decreases self,
    {
        match self {
            Node::Leaf(l) => l.items@.len() >= half,
            Node::Index(ix) => {
                &&& ix.keys@.len() >= 1
                &&& forall|i: int| #![trigger ix.nodes@[i]] 0 <= i < ix.nodes@.len() ==> ix.nodes@[i].filled(half)
            },
        }
    }

    /// Every page below this one is filled; the page itself may not be.
    pub open spec fn filled_below(self, half: nat) -> bool {
        match self {
            Node::Leaf(_) => true,
            Node::Index(ix) => all_filled(ix.nodes@, half),
        }
    }
}

/// Every page of the list is filled.
pub open spec fn all_filled(nodes: Seq<Node>, half: nat) -> bool {
    forall|i: int| #![trigger nodes[i]] 0 <= i < nodes.len() ==> nodes[i].filled(half)
}

impl Node {
    /// No leaf of the subtree holds more than `size` items.
    pub open spec fn leaves_within(self, size: nat) -> bool
        decreases self,
    {
        match self {
            Node::Leaf(l) => l.items@.len() <= size,
            Node::Index(ix) => forall|i: int| #![trigger ix.nodes@[i]] 0 <= i < ix.nodes@.len() ==> ix.nodes@[i].leaves_within(size),
        }
    }
}

/// No leaf below the pages of the list holds more than `size` items.
pub open spec fn all_leaves_within(nodes: Seq<Node>, size: nat) -> bool {
    forall|i: int| #![trigger nodes[i]] 0 <= i < nodes.len() ==> nodes[i].leaves_within(size)
}

/// The most separators an index page of a tree of order `size` holds: the
/// order rounded up to even. A merge of an index page that fell below half
/// of an odd order with a sibling at half leaves one more than the order.
pub open spec fn max_separators(size: nat) -> nat {
    2 * half_of(size)
}

impl Node {
    /// No index page of the subtree holds more than `b` separators.
    pub open spec fn separators_within(self, b: nat) -> bool
        decreases self,
    {
        match self {
            Node::Leaf(_) => true,
            Node::Index(ix) => ix.keys@.len() <= b
                && forall|i: int| #![trigger ix.nodes@[i]] 0 <= i < ix.nodes@.len() ==> ix.nodes@[i].separators_within(b),
        }
    }
}

/// No index page below the pages of the list holds more than `b` separators.
pub open spec fn all_separators_within(nodes: Seq<Node>, b: nat) -> bool {
    forall|i: int| #![trigger nodes[i]] 0 <= i < nodes.len() ==> nodes[i].separators_within(b)
}

} // verus!
