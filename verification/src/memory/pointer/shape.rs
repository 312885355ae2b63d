//! The shape of a tree: the separators of each index page and the entries of
//! each leaf, and how insertion and removal change it.
use vstd::prelude::*;
use crate::key_order::{lex_le, lex_lt, lemma_lex_lt_asymmetric};
use crate::memory::pointer::node::{Entry, Node, key_of, items_entries, half_of};
use crate::memory::pointer::insert::{insert_entry, InsertOutcome};

verus! {

/// A page as its shape: a leaf by its entries; an index page by the keys of
/// its separators and the shapes of its children.
pub enum Shape {
    Leaf(Seq<Entry>),
    Index(Seq<Seq<u8>>, Seq<Shape>),
}

/// What an insertion below a page hands back: the page, or two halves with
/// the key that separates them.
pub enum ShapeOutcome {
    Kept(Shape),
    Split(Seq<u8>, Shape, Shape),
}

/// The keys of separators.
pub open spec fn key_seq(keys: Seq<String>) -> Seq<Seq<u8>> {
    keys.map_values(|k: String| key_of(k))
}

impl Node {
    /// The shape of the subtree.
    pub open spec fn shape(self) -> Shape
        decreases self, 0nat,
    {
        match self {
            Node::Leaf(l) => Shape::Leaf(items_entries(l.items@)),
            Node::Index(ix) => Shape::Index(key_seq(ix.keys@), shapes(ix.nodes@)),
        }
    }
}

/// The shapes of a list of subtrees.
pub open spec fn shapes(s: Seq<Node>) -> Seq<Shape>
    decreases s, 1nat,
{
    if s.len() == 0 {
        Seq::empty()
    } else {
        shapes(s.drop_last()).push(s.last().shape())
    }
}

pub proof fn lemma_shapes(s: Seq<Node>)
    ensures
        shapes(s).len() == s.len(),
        forall|i: int| 0 <= i < s.len() ==> #[trigger] shapes(s)[i] == s[i].shape(),
    decreases s.len(),
{
    if s.len() > 0 {
        lemma_shapes(s.drop_last());
        assert forall|i: int| 0 <= i < s.len() implies #[trigger] shapes(s)[i] == s[i].shape() by {
            if i < s.len() - 1 {
                assert(s.drop_last()[i] == s[i]);
            }
        }
    }
}

/// The shape of an insertion's outcome.
pub open spec fn outcome_shape(r: InsertOutcome) -> ShapeOutcome {
    match r {
        InsertOutcome::Kept(n) => ShapeOutcome::Kept(n.shape()),
        InsertOutcome::Split(p) => ShapeOutcome::Split(key_of(p.new_key), p.new_left_node.shape(), p.new_right_node.shape()),
    }
}

/// The child of an index page with separator keys `ks` that a search for
/// `k` descends into: the first whose separator is above `k`, or the last.
pub open spec fn search_pos(ks: Seq<Seq<u8>>, k: Seq<u8>) -> int
    decreases ks.len(),
{
    if ks.len() == 0 {
        0
    } else if lex_lt(k, ks[0]) {
        0
    } else {
        1 + search_pos(ks.drop_first(), k)
    }
}

/// The position that precedes no separator above `k` and stops at one is `search_pos`.
pub proof fn lemma_search_pos(ks: Seq<Seq<u8>>, k: Seq<u8>, p: int)
    requires
        0 <= p <= ks.len(),
        forall|j: int| 0 <= j < p ==> lex_le(#[trigger] ks[j], k),
        p < ks.len() ==> lex_lt(k, ks[p]),
    ensures
        search_pos(ks, k) == p,
    decreases ks.len(),
{
    if ks.len() > 0 {
        if p > 0 {
            assert(lex_le(ks[0], k));
            lemma_lex_lt_asymmetric(ks[0], k);
            if ks[0] == k {
                crate::key_order::lemma_lex_lt_irreflexive(k);
            }
            let t = ks.drop_first();
            assert forall|j: int| 0 <= j < p - 1 implies lex_le(#[trigger] t[j], k) by {
                assert(t[j] == ks[j + 1]);
            }
            if p - 1 < t.len() {
                assert(t[p - 1] == ks[p]);
            }
            lemma_search_pos(t, k, p - 1);
        }
    }
}

/// How many items (for a leaf) or separators (for an index page) a page holds.
pub open spec fn shape_fill(s: Shape) -> nat {
    match s {
        Shape::Leaf(es) => es.len(),
        Shape::Index(ks, _) => ks.len(),
    }
}

/// An index page with separators `ks` over `kids` that has taken in one
/// separator: split around its middle separator where it holds more than `size`.
pub open spec fn split_index_shape(ks: Seq<Seq<u8>>, kids: Seq<Shape>, size: nat) -> ShapeOutcome {
    if ks.len() <= size {
        ShapeOutcome::Kept(Shape::Index(ks, kids))
    } else {
        let kd = (ks.len() / 2) as int;
        ShapeOutcome::Split(
            ks[kd],
            Shape::Index(ks.take(kd), kids.take(kd + 1)),
            Shape::Index(ks.skip(kd + 1), kids.skip(kd + 1)),
        )
    }
}

/// Inserting `(k, v)` below a page of a tree of order `size`: into the leaf
/// a search for `k` reaches, after the entries whose keys are at most `k`.
/// A leaf that then holds more than `size` items splits after its first
/// `size / 2 + 1`, handing up the first key of its right half; an index page
/// takes in that key and the two halves in place of the child, and splits
/// once it holds more than `size` separators.
#[verifier::opaque]
pub open spec fn shape_insert(s: Shape, k: Seq<u8>, v: Seq<char>, size: nat) -> ShapeOutcome
    decreases s,
{
    match s {
        Shape::Leaf(es) => {
            let full = insert_entry(es, k, v);
            if full.len() <= size {
                ShapeOutcome::Kept(Shape::Leaf(full))
            } else {
                let m = (size / 2 + 1) as int;
                ShapeOutcome::Split(full[m].0, Shape::Leaf(full.take(m)), Shape::Leaf(full.skip(m)))
            }
        },
        Shape::Index(ks, kids) => {
            let p = search_pos(ks, k);
            if 0 <= p < kids.len() {
                match shape_insert(kids[p], k, v, size) {
                    ShapeOutcome::Kept(c) => ShapeOutcome::Kept(Shape::Index(ks, kids.update(p, c))),
                    ShapeOutcome::Split(sep, a, b) =>
                        split_index_shape(ks.insert(p, sep), kids.update(p, a).insert(p + 1, b), size),
                }
            } else {
                ShapeOutcome::Kept(s)
            }
        },
    }
}

/// The tree after inserting `(k, v)` into the tree of shape `s`: where the
/// root splits, a new root holds the key handed up over the two halves.
pub open spec fn insert_root_shape(s: Shape, k: Seq<u8>, v: Seq<char>, size: nat) -> Shape {
    match shape_insert(s, k, v, size) {
        ShapeOutcome::Kept(n) => n,
        ShapeOutcome::Split(sep, a, b) => Shape::Index(seq![sep], seq![a, b]),
    }
}

/// The position `child_position` finds is `search_pos` of the separators' keys.
pub proof fn lemma_child_pos(keys: Seq<String>, k: Seq<u8>, p: int)
    requires
        0 <= p <= keys.len(),
        forall|j: int| 0 <= j < p ==> lex_le(#[trigger] key_of(keys[j]), k),
        p < keys.len() ==> lex_lt(k, key_of(keys[p])),
    ensures
        search_pos(key_seq(keys), k) == p,
{
    let ks = key_seq(keys);
    assert forall|j: int| 0 <= j < p implies lex_le(#[trigger] ks[j], k) by {
        assert(ks[j] == key_of(keys[j]));
    }
    lemma_search_pos(ks, k, p);
}

/// A child replaced by `c` changes the shapes in its place only.
pub proof fn lemma_shapes_update(nodes: Seq<Node>, pos: int, c: Node)
    requires
        0 <= pos < nodes.len(),
    ensures
        shapes(nodes.update(pos, c)) == shapes(nodes).update(pos, c.shape()),
        shapes(nodes)[pos] == nodes[pos].shape(),
{
    lemma_shapes(nodes);
    lemma_shapes(nodes.update(pos, c));
    assert(shapes(nodes.update(pos, c)) =~= shapes(nodes).update(pos, c.shape()));
}

/// A child replaced by two halves with a separator between them.
pub proof fn lemma_shapes_split_child(keys: Seq<String>, nodes: Seq<Node>, pos: int, sep: String, l: Node, r: Node)
    requires
        0 <= pos < nodes.len(),
        pos <= keys.len(),
    ensures
        key_seq(keys.insert(pos, sep)) == key_seq(keys).insert(pos, key_of(sep)),
        shapes(nodes.update(pos, l).insert(pos + 1, r)) == shapes(nodes).update(pos, l.shape()).insert(pos + 1, r.shape()),
        shapes(nodes)[pos] == nodes[pos].shape(),
{
    lemma_shapes(nodes);
    lemma_shapes(nodes.update(pos, l).insert(pos + 1, r));
    assert(key_seq(keys.insert(pos, sep)) =~= key_seq(keys).insert(pos, key_of(sep)));
    assert(shapes(nodes.update(pos, l).insert(pos + 1, r)) =~= shapes(nodes).update(pos, l.shape()).insert(pos + 1, r.shape()));
}

/// Cutting a list of subtrees cuts their shapes alike.
pub proof fn lemma_shapes_cut(nodes: Seq<Node>, i: int)
    requires
        0 <= i <= nodes.len(),
    ensures
        shapes(nodes.take(i)) == shapes(nodes).take(i),
        shapes(nodes.skip(i)) == shapes(nodes).skip(i),
{
    lemma_shapes(nodes);
    lemma_shapes(nodes.take(i));
    lemma_shapes(nodes.skip(i));
    assert(shapes(nodes.take(i)) =~= shapes(nodes).take(i));
    assert(shapes(nodes.skip(i)) =~= shapes(nodes).skip(i));
}

/// An insertion below an index page whose child at `pos`, where the search
/// goes, kept its page as `c`.
pub proof fn lemma_insert_index_kept(root: Node, keys: Seq<String>, nodes: Seq<Node>, pos: int,
    k: Seq<u8>, v: Seq<char>, size: nat, c: Node)
    requires
        root matches Node::Index(ix) && ix.keys@ == keys && ix.nodes@ == nodes,
        search_pos(key_seq(keys), k) == pos,
        0 <= pos < nodes.len(),
        shape_insert(nodes[pos].shape(), k, v, size) == ShapeOutcome::Kept(c.shape()),
    ensures
        shape_insert(root.shape(), k, v, size) == ShapeOutcome::Kept(Shape::Index(key_seq(keys), shapes(nodes.update(pos, c)))),
{
    reveal(shape_insert);
    lemma_shapes_update(nodes, pos, c);
    lemma_shapes(nodes);
    let kids = shapes(nodes);
    assert(root.shape() == Shape::Index(key_seq(keys), kids));
    assert(kids[pos] == nodes[pos].shape());
    assert(shape_insert(Shape::Index(key_seq(keys), kids), k, v, size) == ShapeOutcome::Kept(Shape::Index(key_seq(keys), kids.update(pos, c.shape()))));
}

/// An insertion below an index page whose child at `pos`, where the search
/// goes, split into `l` and `r` around `sep`.
pub proof fn lemma_insert_index_split(root: Node, keys: Seq<String>, nodes: Seq<Node>, pos: int,
    k: Seq<u8>, v: Seq<char>, size: nat, sep: String, l: Node, r: Node)
    requires
        root matches Node::Index(ix) && ix.keys@ == keys && ix.nodes@ == nodes,
        nodes.len() == keys.len() + 1,
        search_pos(key_seq(keys), k) == pos,
        0 <= pos < nodes.len(),
        shape_insert(nodes[pos].shape(), k, v, size) == ShapeOutcome::Split(key_of(sep), l.shape(), r.shape()),
    ensures
        shape_insert(root.shape(), k, v, size)
            == split_index_shape(key_seq(keys.insert(pos, sep)), shapes(nodes.update(pos, l).insert(pos + 1, r)), size),
{
    reveal(shape_insert);
    lemma_shapes_split_child(keys, nodes, pos, sep, l, r);
    lemma_shapes(nodes);
    let kids = shapes(nodes);
    assert(root.shape() == Shape::Index(key_seq(keys), kids));
    assert(kids[pos] == nodes[pos].shape());
}

/// The place of an entry with key `k` among `es`.
pub open spec fn key_index(es: Seq<Entry>, k: Seq<u8>) -> int {
    choose|i: int| 0 <= i < es.len() && es[i].0 == k
}

/// Some entry of `es` has key `k`.
pub open spec fn holds_key(es: Seq<Entry>, k: Seq<u8>) -> bool {
    exists|i: int| 0 <= i < es.len() && es[i].0 == k
}

/// The `j`-th child lends its last item (or child) to the `(j + 1)`-th: a
/// leaf's item goes to the front of its right sibling and its key becomes
/// the separator; an index page's last child goes to the front of its right
/// sibling under the old separator, and its last separator moves up.
pub open spec fn borrow_left_shape(ks: Seq<Seq<u8>>, kids: Seq<Shape>, j: int) -> Shape {
    match (kids[j], kids[j + 1]) {
        (Shape::Leaf(a), Shape::Leaf(b)) => Shape::Index(
            ks.update(j, a.last().0),
            kids.update(j, Shape::Leaf(a.drop_last())).update(j + 1, Shape::Leaf(seq![a.last()] + b)),
        ),
        (Shape::Index(ak, an), Shape::Index(bk, bn)) => Shape::Index(
            ks.update(j, ak.last()),
            kids.update(j, Shape::Index(ak.drop_last(), an.drop_last()))
                .update(j + 1, Shape::Index(seq![ks[j]] + bk, seq![an.last()] + bn)),
        ),
        _ => Shape::Index(ks, kids),
    }
}

/// The `(j + 1)`-th child lends its first item (or child) to the `j`-th: a
/// leaf's item goes to the end of its left sibling and the key of the item
/// now first becomes the separator; an index page's first child goes to the
/// end of its left sibling after the old separator, and its first separator
/// moves up.
pub open spec fn borrow_right_shape(ks: Seq<Seq<u8>>, kids: Seq<Shape>, j: int) -> Shape {
    match (kids[j], kids[j + 1]) {
        (Shape::Leaf(a), Shape::Leaf(b)) => Shape::Index(
            ks.update(j, b[1].0),
            kids.update(j, Shape::Leaf(a.push(b[0]))).update(j + 1, Shape::Leaf(b.drop_first())),
        ),
        (Shape::Index(ak, an), Shape::Index(bk, bn)) => Shape::Index(
            ks.update(j, bk[0]),
            kids.update(j, Shape::Index(ak.push(ks[j]), an.push(bn[0])))
                .update(j + 1, Shape::Index(bk.drop_first(), bn.drop_first())),
        ),
        _ => Shape::Index(ks, kids),
    }
}

/// Two pages joined: a leaf's items after the other's; index pages with their
/// separator `s` between their separators.
pub open spec fn join_shape(l: Shape, s: Seq<u8>, r: Shape) -> Shape {
    match (l, r) {
        (Shape::Leaf(a), Shape::Leaf(b)) => Shape::Leaf(a + b),
        (Shape::Index(ak, an), Shape::Index(bk, bn)) => Shape::Index(ak.push(s) + bk, an + bn),
        _ => l,
    }
}

/// The `j`-th and `(j + 1)`-th children merged, their separator gone.
pub open spec fn merge_shape(ks: Seq<Seq<u8>>, kids: Seq<Shape>, j: int) -> Shape {
    Shape::Index(ks.remove(j), kids.update(j, join_shape(kids[j], ks[j], kids[j + 1])).remove(j + 1))
}

/// An index page after a removal below its `pos`-th child, in a tree of
/// order `size`: a child left with fewer than half of the order (rounded
/// up) borrows from its left sibling where that holds more than half, else
/// from its right sibling where that does, else merges with its left
/// sibling, or with its right one where it is the first child.
pub open spec fn rebalance_shape(ks: Seq<Seq<u8>>, kids: Seq<Shape>, pos: int, size: nat) -> Shape {
    let h = half_of(size);
    let left_spares = pos > 0 && shape_fill(kids[pos - 1]) > h;
    let right_spares = pos + 1 < kids.len() && shape_fill(kids[pos + 1]) > h;
    if shape_fill(kids[pos]) >= h {
        Shape::Index(ks, kids)
    } else if left_spares {
        borrow_left_shape(ks, kids, pos - 1)
    } else if right_spares {
        borrow_right_shape(ks, kids, pos)
    } else if pos > 0 {
        merge_shape(ks, kids, pos - 1)
    } else {
        merge_shape(ks, kids, pos)
    }
}

/// Removing an entry with key `k` below a page of a tree of order `size`:
/// from the leaf a search for `k` reaches, then rebalancing each page on the
/// way back up; whether an entry was removed.
#[verifier::opaque]
pub open spec fn shape_remove(s: Shape, k: Seq<u8>, size: nat) -> (Shape, bool)
    decreases s,
{
    match s {
        Shape::Leaf(es) => if holds_key(es, k) {
            (Shape::Leaf(es.remove(key_index(es, k))), true)
        } else {
            (s, false)
        },
        Shape::Index(ks, kids) => {
            let p = search_pos(ks, k);
            if 0 <= p < kids.len() {
                let (c, found) = shape_remove(kids[p], k, size);
                if found {
                    (rebalance_shape(ks, kids.update(p, c), p, size), true)
                } else {
                    (s, false)
                }
            } else {
                (s, false)
            }
        },
    }
}

/// The tree after removing an entry with key `k` from the tree of shape
/// `s`: a root index page left with no separator gives way to its only child.
pub open spec fn remove_root_shape(s: Shape, k: Seq<u8>, size: nat) -> Shape {
    let t = shape_remove(s, k, size).0;
    match t {
        Shape::Index(ks, kids) => if ks.len() == 0 && kids.len() > 0 { kids[0] } else { t },
        _ => t,
    }
}

/// `search_pos` lies within the separators, after those at or below `k`,
/// at the first above it.
pub proof fn lemma_search_pos_props(ks: Seq<Seq<u8>>, k: Seq<u8>)
    ensures
        0 <= search_pos(ks, k) <= ks.len(),
        forall|j: int| 0 <= j < search_pos(ks, k) ==> lex_le(#[trigger] ks[j], k),
        search_pos(ks, k) < ks.len() ==> lex_lt(k, ks[search_pos(ks, k)]),
    decreases ks.len(),
{
    if ks.len() > 0 && !lex_lt(k, ks[0]) {
        let t = ks.drop_first();
        lemma_search_pos_props(t, k);
        crate::key_order::lemma_lex_lt_total(k, ks[0]);
        assert forall|j: int| 0 <= j < search_pos(ks, k) implies lex_le(#[trigger] ks[j], k) by {
            if j > 0 {
                assert(ks[j] == t[j - 1]);
            }
        }
        if search_pos(ks, k) < ks.len() {
            assert(ks[search_pos(ks, k)] == t[search_pos(t, k)]);
        }
    }
}

} // verus!
