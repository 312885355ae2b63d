//! A B+ tree from string keys to string values, held in memory.
//!
//! Leaves hold items in key order; index pages hold separator keys, one
//! fewer than their children. A page that grows past the order of the tree
//! splits in two; a page that falls below half of it borrows from a
//! sibling or merges with one.
pub mod node;
pub mod lemmas;
pub mod query;
pub mod insert;
pub mod remove;
pub mod laws;
pub mod shape;

use vstd::prelude::*;
use vstd::utf8::encode_utf8;
use crate::memory::pointer::node::{Entry, Node, IndexNode, LeafNode, RemoveResult, key_of, sorted, strictly_sorted, index_wf, fill, half_of, all_filled, all_leaves_within, max_separators, all_separators_within};
use crate::memory::pointer::lemmas::{lemma_wf_entries, lemma_nodes_entries_one, lemma_nodes_entries_concat};
use crate::memory::pointer::query::{has_entry, has_key, reached_entries};
use crate::memory::pointer::shape::lemma_child_pos;
use crate::key_order::lex_lt;
use crate::memory::pointer::insert::{insert_entry, InsertOutcome};
use crate::memory::pointer::remove::removed_one;
use crate::memory::pointer::shape::{Shape, insert_root_shape, remove_root_shape, key_seq, shapes, lemma_shapes};

verus! {

/// A B+ tree of order `size`: a page that grows past `size` items or
/// separators on an insertion splits in two, and a page that falls below
/// half of `size` on a removal borrows from or merges with a sibling.
pub struct BPlusTree {
    size: usize,
    root: Node,
    height: Ghost<nat>,
}

impl View for BPlusTree {
    type V = Seq<Entry>;

    /// The entries of the tree, leaf by leaf from left to right.
    closed spec fn view(&self) -> Seq<Entry> {
        self.root.entries()
    }
}

impl BPlusTree {
    #[verifier::type_invariant]
    spec fn inv(self) -> bool {
        &&& self.size >= 2
        &&& self.root.wf(None, None, false)
        &&& self.root.balanced(self.height@)
        &&& self.root.filled_below(half_of(self.size as nat))
        &&& (self.root is Index ==> fill(self.root) >= 1)
        &&& self.root.leaves_within(self.size as nat)
        &&& self.root.separators_within(max_separators(self.size as nat))
    }

    /// No index page holds more separators than the order rounded up to
    /// even: for an even order, no more than the order.
    pub closed spec fn separators_bounded(&self) -> bool {
        self.root.separators_within(max_separators(self.size as nat))
    }

    /// No index page holds more separators than the order. Insertions keep
    /// this; a removal with an odd order can leave one page one over.
    pub closed spec fn index_pages_within_order(&self) -> bool {
        self.root.separators_within(self.size as nat)
    }

    /// The shape of the tree: the separators of each index page and the
    /// entries of each leaf.
    pub closed spec fn shape(&self) -> Shape {
        self.root.shape()
    }

    /// The entries of the leaf that a search for `k` reaches: at each index
    /// page, the first child whose separator is above `k`, or the last.
    pub closed spec fn search_leaf(&self, k: Seq<u8>) -> Seq<Entry> {
        reached_entries(self.root, k)
    }

    /// The separators of the root page; none where the root is a leaf.
    pub closed spec fn root_separators(&self) -> Seq<Seq<u8>> {
        match self.root {
            Node::Leaf(_) => Seq::empty(),
            Node::Index(ix) => ix.keys@.map_values(|k: String| key_of(k)),
        }
    }

    /// No leaf holds more items than the order of the tree.
    pub closed spec fn leaves_bounded(&self) -> bool {
        self.root.leaves_within(self.size as nat)
    }

    /// Every leaf other than the root holds at least half of the order of
    /// the tree, rounded up, in items; every index page holds at least one separator.
    pub closed spec fn pages_filled(&self) -> bool {
        &&& self.root.filled_below(half_of(self.size as nat))
        &&& (self.root is Index ==> fill(self.root) >= 1)
    }

    /// The number of index pages between the root and any leaf.
    pub closed spec fn height(&self) -> nat {
        self.height@
    }

    /// Every leaf lies `height()` levels below the root.
    pub closed spec fn is_balanced(&self) -> bool {
        self.root.balanced(self.height@)
    }

    /// Every separator lies strictly above the keys of the children to its
    /// left: a search then reaches every entry with the key it looks for.
    /// Holds of a new tree and is kept while no key is inserted twice.
    pub closed spec fn keys_separated(&self) -> bool {
        self.root.wf(None, None, true)
    }

    /// The order of the tree.
    pub closed spec fn order(&self) -> nat {
        self.size as nat
    }

    /// An empty tree whose pages split once they hold more than `size` items or separators.
    ///
    /// The order is at least two. With order one, an index page that splits
    /// leaves a right half without a separator over a single child; once a
    /// removal empties the leaf below it, that leaf has no sibling to borrow
    /// from or merge with.
    pub fn new(size: usize) -> (t: Self)
        requires
            size >= 2,
        ensures
            t@ == Seq::<Entry>::empty(),
            t.keys_separated(),
            t.order() == size,
            t.is_balanced(),
            t.height() == 0,
            t.pages_filled(),
            t.leaves_bounded(),
            t.separators_bounded(),
            t.index_pages_within_order(),
            t.shape() == Shape::Leaf(Seq::empty()),
    {
        let t = Self { size: size, root: Node::Leaf(LeafNode { items: Vec::new() }), height: Ghost(0) };
        assert(t.root.entries() =~= Seq::<Entry>::empty());
        t
    }

    /// Adds `key` with `value`, after any entries with the same key.
    pub fn insert(&mut self, key: String, value: String)
        ensures
            final(self)@ == insert_entry(old(self)@, key_of(key), value@),
            sorted(final(self)@),
            final(self).order() == old(self).order(),
            old(self).keys_separated() && strictly_sorted(old(self)@) && !has_key(old(self)@, key_of(key))
                ==> final(self).keys_separated(),
            final(self).is_balanced(),
            final(self).height() == old(self).height() || final(self).height() == old(self).height() + 1,
            final(self).height() == old(self).height() + 1 ==> final(self).root_separators().len() == 1,
            old(self).index_pages_within_order() ==> final(self).index_pages_within_order(),
            final(self).shape() == insert_root_shape(old(self).shape(), key_of(key), value@, old(self).order()),
            has_entry(final(self).search_leaf(key_of(key)), key_of(key), value@),
            final(self).pages_filled(),
            final(self).leaves_bounded(),
            final(self).separators_bounded(),
    {
        proof {
            use_type_invariant(&*self);
        }
        let ghost k = key_of(key);
        let mut taken = BPlusTree::new(2);
        std::mem::swap(&mut taken, self);
        proof {
            use_type_invariant(&taken);
        }
        let BPlusTree { size, root, height } = taken;
        let ghost h = height@;
        let ghost old_root = root;
        let r = Self::insert_inner(key, value, root, size, Ghost(None), Ghost(None), Ghost(h));
        match r {
            InsertOutcome::Kept(n) => {
                *self = BPlusTree { size, root: n, height };
            },
            InsertOutcome::Split(p) => {
                let ghost l = p.new_left_node;
                let ghost rr = p.new_right_node;
                let ghost gp_key = p.new_key;
                let mut keys: Vec<String> = Vec::new();
                keys.push(p.new_key);
                let mut nodes: Vec<Node> = Vec::new();
                nodes.push(p.new_left_node);
                nodes.push(p.new_right_node);
                proof {
                    assert(nodes@ =~= seq![l] + seq![rr]);
                    lemma_nodes_entries_concat(seq![l], seq![rr]);
                    lemma_nodes_entries_one(l);
                    lemma_nodes_entries_one(rr);
                    assert(index_wf(keys@, nodes@, None, None, false));
                    if old(self).keys_separated() && strictly_sorted(old(self)@) && !has_key(old(self)@, k) {
                        assert(index_wf(keys@, nodes@, None, None, true));
                    }
                }
                assert(Node::Index(IndexNode { keys, nodes }).balanced(h + 1));
                assert(all_filled(nodes@, half_of(size as nat)));
                assert(all_leaves_within(nodes@, size as nat));
                assert(all_separators_within(nodes@, max_separators(size as nat)));
                proof {
                    if lex_lt(k, key_of(gp_key)) {
                        lemma_child_pos(keys@, k, 0);
                    } else {
                        crate::key_order::lemma_lex_lt_total(k, key_of(gp_key));
                        lemma_child_pos(keys@, k, 1);
                    }
                    lemma_shapes(nodes@);
                    assert(key_seq(keys@) =~= seq![key_of(gp_key)]);
                    assert(shapes(nodes@) =~= seq![l.shape(), rr.shape()]);
                    if old_root.separators_within(size as nat) {
                        assert(all_separators_within(nodes@, size as nat));
                    }
                }
                *self = BPlusTree { size, root: Node::Index(IndexNode { keys, nodes }), height: Ghost(h + 1) };
            },
        }
        proof {
            lemma_wf_entries(self.root, None, None, false);
        }
    }

    /// The root page, for walking the tree.
    pub fn root(&self) -> (r: &Node)
        ensures
            r.entries() == self@,
            r.shape() == self.shape(),
    {
        &self.root
    }

    /// The value of an entry with key `key`, if the search finds one.
    pub fn get(&self, key: &str) -> (r: Option<String>)
        ensures
            r matches Some(v) ==> has_entry(self@, encode_utf8(key@), v@),
            self.keys_separated() ==> (r is None <==> !has_key(self@, encode_utf8(key@))),
            r is Some <==> has_key(self.search_leaf(encode_utf8(key@)), encode_utf8(key@)),
            r matches Some(v) ==> has_entry(self.search_leaf(encode_utf8(key@)), encode_utf8(key@), v@),
    {
        proof {
            use_type_invariant(&*self);
        }
        let r = Self::get_inner(key, &self.root, Ghost(None), Ghost(None));
        proof {
            if r is Some {
                let v = r->0;
                let i = choose|i: int| 0 <= i < self@.len() && self@[i] == (encode_utf8(key@), v@);
                assert(self@[i].0 == encode_utf8(key@));
            }
        }
        r
    }

    /// Removes one entry with key `key`, if the search finds one; a page left
    /// with fewer than half of the order borrows from or merges with a sibling.
    /// Returns an empty string when an entry was removed.
    pub fn remove(&mut self, key: &str) -> (r: Option<String>)
        ensures
            r is None ==> final(self)@ == old(self)@,
            r is None && old(self).keys_separated() ==> !has_key(old(self)@, encode_utf8(key@)) && final(self).keys_separated(),
            r matches Some(s) ==> s@ == Seq::<char>::empty() && removed_one(old(self)@, final(self)@, encode_utf8(key@)),
            sorted(final(self)@),
            final(self).order() == old(self).order(),
            old(self).keys_separated() && strictly_sorted(old(self)@) ==> final(self).keys_separated(),
            final(self).is_balanced(),
            final(self).height() == old(self).height() || final(self).height() + 1 == old(self).height(),
            strictly_sorted(old(self)@) ==> final(self).shape() == remove_root_shape(old(self).shape(), encode_utf8(key@), old(self).order()),
            r is Some <==> has_key(old(self).search_leaf(encode_utf8(key@)), encode_utf8(key@)),
            final(self).pages_filled(),
            final(self).leaves_bounded(),
            final(self).separators_bounded(),
    {
        proof {
            use_type_invariant(&*self);
        }
        let mut taken = BPlusTree::new(2);
        std::mem::swap(&mut taken, self);
        proof {
            use_type_invariant(&taken);
        }
        let BPlusTree { size, root, height } = taken;
        let ghost h = height@;
        let (new_root, res) = Self::remove_inner(key, root, size, true, Ghost(None), Ghost(None), Ghost(h));
        let mut new_height = Ghost(h);
        let found = match res {
            RemoveResult::NotFound => false,
            _ => true,
        };
        let new_root = match new_root {
            Node::Index(mut ix) => {
                if ix.keys.len() == 0 {
                    let ghost nodes = ix.nodes@;
                    let only = ix.nodes.remove(0);
                    proof {
                        lemma_shapes(nodes);
                        assert(nodes =~= seq![only]);
                        lemma_nodes_entries_one(only);
                        assert(only.wf(None, None, false));
                        assert(only.balanced((h - 1) as nat));
                        assert(only.filled(half_of(size as nat)));
                        assert(only.leaves_within(size as nat));
                        assert(only.separators_within(max_separators(size as nat)));
                    }
                    new_height = Ghost((h - 1) as nat);
                    only
                } else {
                    Node::Index(ix)
                }
            },
            n => n,
        };
        *self = BPlusTree { size, root: new_root, height: new_height };
        proof {
            lemma_wf_entries(self.root, None, None, false);
        }
        if found {
            Some(String::new())
        } else {
            None
        }
    }
}

} // verus!
