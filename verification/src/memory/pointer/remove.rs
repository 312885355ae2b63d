//! Removing an item, then borrowing from or merging with a sibling page
//! that has fallen below half of the order of the tree.
use vstd::prelude::*;
use crate::memory::pointer::BPlusTree;
use vstd::utf8::encode_utf8;
use crate::key_order::{KeyOrder, lex_le, lex_lt, lemma_lex_lt_irreflexive, lemma_lex_le_transitive, lemma_lex_lt_total};
use crate::memory::pointer::node::{Entry, Node, IndexNode, Item, RemoveContinue, RemoveResult, key_of, items_entries, nodes_entries, in_bounds, sep_in_bounds, sorted, strictly_sorted, child_lo, child_hi, index_wf, leaf_wf, all_balanced, fill, half_of, all_filled, all_leaves_within, max_separators, all_separators_within};
use crate::memory::pointer::lemmas::{lo_le, hi_le, lemma_wf_entries, lemma_in_bounds_widen, lemma_items_entries_concat, lemma_nodes_entries_at, lemma_nodes_entries_concat, lemma_nodes_entries_one, lemma_sorted_concat, lemma_all_in_bounds_concat};
use crate::memory::pointer::insert::{lemma_index_split, lemma_middle_of_run, lemma_index_replace_child};
use crate::memory::pointer::query::{reached_entries, compare_key, has_key, child_position, lemma_search_excludes};

use crate::memory::pointer::shape::{Shape, key_seq, shapes, lemma_shapes, shape_fill, borrow_left_shape, borrow_right_shape, join_shape, merge_shape, rebalance_shape, shape_remove, holds_key, key_index, search_pos, lemma_child_pos, lemma_shapes_update};

verus! {

/// Two leaves side by side, with separator `s`, hold their items in order
/// within the outer bounds.
pub open spec fn leaf_pair_wf(a: Seq<Item>, s: Seq<u8>, b: Seq<Item>, lo: Option<Seq<u8>>, hi: Option<Seq<u8>>, strict: bool) -> bool {
    &&& leaf_wf(a, lo, Some(s), strict)
    &&& leaf_wf(b, Some(s), hi, strict)
    &&& sep_in_bounds(s, lo, hi)
    &&& (strict ==> strictly_sorted(items_entries(a) + items_entries(b)))
}

proof fn lemma_leaf_sub_wf(a: Seq<Item>, i: int, j: int, lo: Option<Seq<u8>>, hi: Option<Seq<u8>>,
    lo2: Option<Seq<u8>>, hi2: Option<Seq<u8>>, strict: bool)
    requires
        0 <= i <= j <= a.len(),
        sorted(items_entries(a)),
        forall|k: int| #![trigger a[k]] i <= k < j ==> in_bounds(key_of(a[k].key), lo2, hi2, strict),
    ensures
        leaf_wf(a.subrange(i, j), lo2, hi2, strict),
{
    let s = items_entries(a);
    let t = items_entries(a.subrange(i, j));
    assert forall|x: int, y: int| 0 <= x < y < t.len() implies lex_le(#[trigger] t[x].0, #[trigger] t[y].0) by {
        assert(t[x] == s[i + x] && t[y] == s[i + y]);
    }
    assert forall|x: int| 0 <= x < t.len() implies in_bounds(#[trigger] t[x].0, lo2, hi2, strict) by {
        assert(t[x].0 == key_of(a[i + x].key));
    }
}

/// Moving the last item of the left leaf to the front of the right one,
/// with that item's key as the new separator.
pub proof fn lemma_leaf_borrow_left(a: Seq<Item>, s: Seq<u8>, b: Seq<Item>, lo: Option<Seq<u8>>, hi: Option<Seq<u8>>, strict: bool)
    requires
        a.len() >= 1,
        leaf_pair_wf(a, s, b, lo, hi, strict),
    ensures
        leaf_pair_wf(a.drop_last(), key_of(a.last().key), seq![a.last()] + b, lo, hi, strict),
        items_entries(a.drop_last()) + items_entries(seq![a.last()] + b) == items_entries(a) + items_entries(b),
{
    let x = a.last();
    let xk = key_of(x.key);
    let n = a.len() - 1;
    let ea = items_entries(a);
    let eb = items_entries(b);
    assert(ea[n].0 == xk);
    assert(in_bounds(xk, lo, Some(s), strict));
    if strict {
        assert forall|i: int| 0 <= i < n implies lex_lt(#[trigger] ea[i].0, xk) by {
            assert((ea + eb)[i] == ea[i] && (ea + eb)[n] == ea[n]);
        }
    }
    assert forall|k: int| #![trigger a[k]] 0 <= k < n implies in_bounds(key_of(a[k].key), lo, Some(xk), strict) by {
        assert(ea[k].0 == key_of(a[k].key));
        assert(in_bounds(ea[k].0, lo, Some(s), strict));
    }
    assert(a.drop_last() =~= a.subrange(0, n));
    lemma_leaf_sub_wf(a, 0, n, lo, Some(s), lo, Some(xk), strict);
    // the right leaf with the moved item in front
    let c = seq![x] + b;
    let ec = items_entries(c);
    assert(ec =~= seq![ea[n]] + eb);
    assert forall|k: int| 0 <= k < ec.len() implies in_bounds(#[trigger] ec[k].0, Some(xk), hi, strict) by {
        if k == 0 {
            if hi is Some {
                if strict {
                    lemma_lex_le_transitive(xk, s, hi->0);
                } else {
                    lemma_lex_le_transitive(xk, s, hi->0);
                }
            }
        } else {
            assert(ec[k] == eb[k - 1]);
            assert(in_bounds(eb[k - 1].0, Some(s), hi, strict));
            lemma_lex_le_transitive(xk, s, eb[k - 1].0);
        }
    }
    assert forall|i: int, j: int| 0 <= i < j < ec.len() implies lex_le(#[trigger] ec[i].0, #[trigger] ec[j].0) by {
        if i == 0 {
            assert(ec[j] == eb[j - 1]);
            assert(in_bounds(eb[j - 1].0, Some(s), hi, strict));
            lemma_lex_le_transitive(xk, s, eb[j - 1].0);
        } else {
            assert(ec[i] == eb[i - 1] && ec[j] == eb[j - 1]);
        }
    }
    assert(sep_in_bounds(s, lo, hi));
    if hi is Some {
        lemma_lex_le_transitive(xk, s, hi->0);
    }
    lemma_items_entries_concat(seq![x], b);
    assert(items_entries(a.drop_last()) =~= ea.drop_last());
    assert(items_entries(a.drop_last()) + ec =~= ea + eb);
    if strict {
        assert(items_entries(a.drop_last()) + ec =~= ea + eb);
    }
}

/// Moving the first item of the right leaf to the end of the left one, with
/// the right leaf's next key as the new separator.
pub proof fn lemma_leaf_borrow_right(a: Seq<Item>, s: Seq<u8>, b: Seq<Item>, lo: Option<Seq<u8>>, hi: Option<Seq<u8>>, strict: bool)
    requires
        b.len() >= 2,
        leaf_pair_wf(a, s, b, lo, hi, strict),
    ensures
        leaf_pair_wf(a.push(b[0]), key_of(b[1].key), b.drop_first(), lo, hi, strict),
        items_entries(a.push(b[0])) + items_entries(b.drop_first()) == items_entries(a) + items_entries(b),
{
    let ea = items_entries(a);
    let eb = items_entries(b);
    let y = key_of(b[1].key);
    let y0 = key_of(b[0].key);
    assert(eb[0].0 == y0 && eb[1].0 == y);
    assert(in_bounds(y0, Some(s), hi, strict));
    assert(in_bounds(y, Some(s), hi, strict));
    assert(lex_le(y0, y));
    if strict {
        assert((ea + eb)[ea.len() as int] == eb[0] && (ea + eb)[ea.len() as int + 1] == eb[1]);
        assert(lex_lt(y0, y));
    }
    let l = a.push(b[0]);
    let el = items_entries(l);
    assert(el =~= ea.push(eb[0]));
    assert forall|k: int| 0 <= k < el.len() implies in_bounds(#[trigger] el[k].0, lo, Some(y), strict) by {
        if k < ea.len() {
            assert(el[k] == ea[k]);
            assert(in_bounds(ea[k].0, lo, Some(s), strict));
            lemma_lex_le_transitive(ea[k].0, s, y0);
            lemma_lex_le_transitive(ea[k].0, y0, y);
            if lo is Some {
                lemma_lex_le_transitive(lo->0, s, y);
            }
        } else {
            assert(el[k] == eb[0]);
            assert(sep_in_bounds(s, lo, hi));
            if lo is Some {
                lemma_lex_le_transitive(lo->0, s, y0);
            }
        }
    }
    assert forall|i: int, j: int| 0 <= i < j < el.len() implies lex_le(#[trigger] el[i].0, #[trigger] el[j].0) by {
        if j < ea.len() {
            assert(el[i] == ea[i] && el[j] == ea[j]);
        } else {
            assert(el[i] == ea[i] && el[j] == eb[0]);
            assert(in_bounds(ea[i].0, lo, Some(s), strict));
            lemma_lex_le_transitive(ea[i].0, s, y0);
        }
    }
    let r = b.drop_first();
    let er = items_entries(r);
    assert(er =~= eb.drop_first());
    assert forall|k: int| 0 <= k < er.len() implies in_bounds(#[trigger] er[k].0, Some(y), hi, strict) by {
        assert(er[k] == eb[k + 1]);
        assert(in_bounds(eb[k + 1].0, Some(s), hi, strict));
        if k > 0 {
            assert(lex_le(eb[1].0, eb[k + 1].0));
        }
    }
    assert forall|i: int, j: int| 0 <= i < j < er.len() implies lex_le(#[trigger] er[i].0, #[trigger] er[j].0) by {
        assert(er[i] == eb[i + 1] && er[j] == eb[j + 1]);
    }
    assert(sep_in_bounds(s, lo, hi));
    if lo is Some {
        lemma_lex_le_transitive(lo->0, s, y);
    }
    assert(el + er =~= ea + eb);
}

/// Joining two leaves side by side into one.
pub proof fn lemma_leaf_merge(a: Seq<Item>, s: Seq<u8>, b: Seq<Item>, lo: Option<Seq<u8>>, hi: Option<Seq<u8>>, strict: bool)
    requires
        leaf_pair_wf(a, s, b, lo, hi, strict),
    ensures
        leaf_wf(a + b, lo, hi, strict),
        items_entries(a + b) == items_entries(a) + items_entries(b),
{
    let ea = items_entries(a);
    let eb = items_entries(b);
    lemma_items_entries_concat(a, b);
    assert forall|i: int| #![trigger ea[i]] 0 <= i < ea.len() implies lex_le(ea[i].0, s) by {
        assert(in_bounds(ea[i].0, lo, Some(s), strict));
    }
    assert forall|i: int| #![trigger eb[i]] 0 <= i < eb.len() implies lex_le(s, eb[i].0) by {
        assert(in_bounds(eb[i].0, Some(s), hi, strict));
    }
    lemma_sorted_concat(ea, eb, s);
    assert(sep_in_bounds(s, lo, hi));
    assert forall|i: int| 0 <= i < ea.len() implies in_bounds(#[trigger] ea[i].0, lo, hi, strict) by {
        assert(in_bounds(ea[i].0, lo, Some(s), strict));
        if hi is Some {
            lemma_lex_le_transitive(ea[i].0, s, hi->0);
        }
    }
    assert forall|i: int| 0 <= i < eb.len() implies in_bounds(#[trigger] eb[i].0, lo, hi, strict) by {
        assert(in_bounds(eb[i].0, Some(s), hi, strict));
        if lo is Some {
            lemma_lex_le_transitive(lo->0, s, eb[i].0);
        }
    }
    lemma_all_in_bounds_concat(ea, eb, lo, hi, strict);
}

/// Two index pages side by side, joined around their separator, make one.
pub proof fn lemma_index_join(lk: Seq<String>, ln: Seq<Node>, s: String, rk: Seq<String>, rn: Seq<Node>,
    lo: Option<Seq<u8>>, hi: Option<Seq<u8>>, strict: bool)
    requires
        index_wf(lk, ln, lo, Some(key_of(s)), strict),
        index_wf(rk, rn, Some(key_of(s)), hi, strict),
        sep_in_bounds(key_of(s), lo, hi),
    ensures
        index_wf(lk.push(s) + rk, ln + rn, lo, hi, strict),
        nodes_entries(ln + rn) == nodes_entries(ln) + nodes_entries(rn),
{
    let keys = lk.push(s) + rk;
    let nodes = ln + rn;
    let m = key_of(s);
    let n = lk.len() as int;
    assert(keys[n] == s);
    assert forall|i: int| #![trigger keys[i]] 0 <= i < keys.len() implies sep_in_bounds(key_of(keys[i]), lo, hi) by {
        if i < n {
            assert(keys[i] == lk[i]);
            assert(sep_in_bounds(key_of(lk[i]), lo, Some(m)));
            if hi is Some {
                lemma_lex_le_transitive(key_of(lk[i]), m, hi->0);
            }
        } else if i > n {
            assert(keys[i] == rk[i - n - 1]);
            assert(sep_in_bounds(key_of(rk[i - n - 1]), Some(m), hi));
            if lo is Some {
                lemma_lex_le_transitive(lo->0, m, key_of(rk[i - n - 1]));
            }
        }
    }
    assert forall|i: int, j: int| 0 <= i < j < keys.len() implies lex_le(#[trigger] key_of(keys[i]), #[trigger] key_of(keys[j])) by {
        if j < n {
            assert(keys[i] == lk[i] && keys[j] == lk[j]);
        } else if i > n {
            assert(keys[i] == rk[i - n - 1] && keys[j] == rk[j - n - 1]);
        } else if i == n {
            assert(keys[j] == rk[j - n - 1]);
            assert(sep_in_bounds(key_of(rk[j - n - 1]), Some(m), hi));
        } else if j == n {
            assert(keys[i] == lk[i]);
            assert(sep_in_bounds(key_of(lk[i]), lo, Some(m)));
        } else {
            assert(keys[i] == lk[i] && keys[j] == rk[j - n - 1]);
            assert(sep_in_bounds(key_of(lk[i]), lo, Some(m)));
            assert(sep_in_bounds(key_of(rk[j - n - 1]), Some(m), hi));
            lemma_lex_le_transitive(key_of(lk[i]), m, key_of(rk[j - n - 1]));
        }
    }
    assert forall|i: int| #![trigger nodes[i]] 0 <= i < nodes.len() implies nodes[i].wf(child_lo(keys, lo, i), child_hi(keys, hi, i), strict) by {
        if i <= n {
            assert(nodes[i] == ln[i]);
            assert(child_lo(keys, lo, i) == child_lo(lk, lo, i));
            assert(child_hi(keys, hi, i) == child_hi(lk, Some(m), i));
        } else {
            assert(nodes[i] == rn[i - n - 1]);
            assert(child_lo(keys, lo, i) == child_lo(rk, Some(m), i - n - 1));
            assert(child_hi(keys, hi, i) == child_hi(rk, hi, i - n - 1));
        }
    }
    lemma_nodes_entries_concat(ln, rn);
}

/// `l2`, `s2`, `r2` are the siblings `l`, `r` and their separator `s` after
/// the last item of the leaf `l` moved to the front of `r`, its key becoming
/// the separator; or, for index pages, after the last child of `l` moved to
/// the front of `r` with `s` before it, the last separator of `l` taking
/// the place of `s`.
pub open spec fn moved_from_left(l: Node, s: String, r: Node, l2: Node, s2: String, r2: Node) -> bool {
    match (l, r, l2, r2) {
        (Node::Leaf(a), Node::Leaf(b), Node::Leaf(a2), Node::Leaf(b2)) => {
            &&& a2.items@ == a.items@.drop_last()
            &&& b2.items@ == seq![a.items@.last()] + b.items@
            &&& s2@ == a.items@.last().key@
        },
        (Node::Index(a), Node::Index(b), Node::Index(a2), Node::Index(b2)) => {
            &&& a2.keys@ == a.keys@.drop_last()
            &&& a2.nodes@ == a.nodes@.drop_last()
            &&& b2.keys@ == seq![s] + b.keys@
            &&& b2.nodes@ == seq![a.nodes@.last()] + b.nodes@
            &&& s2 == a.keys@.last()
        },
        _ => false,
    }
}

/// `l2`, `s2`, `r2` are the siblings `l`, `r` and their separator `s` after
/// the first item of the leaf `r` moved to the end of `l`, the key of the
/// item now first in `r` becoming the separator; or, for index pages, after
/// the first child of `r` moved to the end of `l` with `s` before it, the
/// first separator of `r` taking the place of `s`.
pub open spec fn moved_from_right(l: Node, s: String, r: Node, l2: Node, s2: String, r2: Node) -> bool {
    match (l, r, l2, r2) {
        (Node::Leaf(a), Node::Leaf(b), Node::Leaf(a2), Node::Leaf(b2)) => {
            &&& a2.items@ == a.items@.push(b.items@[0])
            &&& b2.items@ == b.items@.drop_first()
            &&& s2@ == b.items@[1].key@
        },
        (Node::Index(a), Node::Index(b), Node::Index(a2), Node::Index(b2)) => {
            &&& a2.keys@ == a.keys@.push(s)
            &&& a2.nodes@ == a.nodes@.push(b.nodes@[0])
            &&& b2.keys@ == b.keys@.drop_first()
            &&& b2.nodes@ == b.nodes@.drop_first()
            &&& s2 == b.keys@[0]
        },
        _ => false,
    }
}

/// `m` is the siblings `l` and `r` joined: their items one after the other;
/// or, for index pages, their children, with `s` between their separators.
pub open spec fn merged(l: Node, s: String, r: Node, m: Node) -> bool {
    match (l, r, m) {
        (Node::Leaf(a), Node::Leaf(b), Node::Leaf(c)) => c.items@ == a.items@ + b.items@,
        (Node::Index(a), Node::Index(b), Node::Index(c)) => {
            &&& c.keys@ == a.keys@.push(s) + b.keys@
            &&& c.nodes@ == a.nodes@ + b.nodes@
        },
        _ => false,
    }
}

/// `r` is `ix` after the `j`-th and `(j + 1)`-th children traded an item or
/// child, from the left one where `from_left`, else from the right one.
pub open spec fn borrowed_at(ix: IndexNode, r: IndexNode, j: int, from_left: bool) -> bool {
    &&& 0 <= j < ix.keys@.len()
    &&& r.keys@.len() == ix.keys@.len()
    &&& r.nodes@.len() == ix.nodes@.len()
    &&& forall|i: int| 0 <= i < r.keys@.len() && i != j ==> r.keys@[i] == ix.keys@[i]
    &&& forall|i: int| 0 <= i < r.nodes@.len() && i != j && i != j + 1 ==> r.nodes@[i] == ix.nodes@[i]
    &&& from_left ==> moved_from_left(ix.nodes@[j], ix.keys@[j], ix.nodes@[j + 1], r.nodes@[j], r.keys@[j], r.nodes@[j + 1])
    &&& !from_left ==> moved_from_right(ix.nodes@[j], ix.keys@[j], ix.nodes@[j + 1], r.nodes@[j], r.keys@[j], r.nodes@[j + 1])
}

/// `r` is `ix` with its `j`-th and `(j + 1)`-th children merged and their separator gone.
pub open spec fn merged_at(ix: IndexNode, r: IndexNode, j: int) -> bool {
    &&& 0 <= j < ix.keys@.len()
    &&& r.keys@ == ix.keys@.remove(j)
    &&& r.nodes@.len() + 1 == ix.nodes@.len()
    &&& forall|i: int| 0 <= i < j ==> r.nodes@[i] == ix.nodes@[i]
    &&& forall|i: int| j < i < r.nodes@.len() ==> r.nodes@[i] == ix.nodes@[i + 1]
    &&& merged(ix.nodes@[j], ix.keys@[j], ix.nodes@[j + 1], r.nodes@[j])
}

/// An index page has one more child than separators.
pub open spec fn arity_ok(n: Node) -> bool {
    n matches Node::Index(ix) ==> ix.nodes@.len() == ix.keys@.len() + 1
}

proof fn lemma_fill_shape(n: Node)
    ensures
        shape_fill(n.shape()) == fill(n),
{
}

proof fn lemma_moved_left_shapes(l: Node, s: String, r: Node, l2: Node, s2: String, r2: Node)
    requires
        moved_from_left(l, s, r, l2, s2, r2),
        fill(l) >= 1,
        arity_ok(l),
    ensures
        match (l.shape(), r.shape()) {
            (Shape::Leaf(a), Shape::Leaf(b)) => l2.shape() == Shape::Leaf(a.drop_last())
                && r2.shape() == Shape::Leaf(seq![a.last()] + b) && key_of(s2) == a.last().0,
            (Shape::Index(ak, an), Shape::Index(bk, bn)) => l2.shape() == Shape::Index(ak.drop_last(), an.drop_last())
                && r2.shape() == Shape::Index(seq![key_of(s)] + bk, seq![an.last()] + bn) && key_of(s2) == ak.last(),
            _ => false,
        },
{
    match (l, r, l2, r2) {
        (Node::Leaf(a), Node::Leaf(b), Node::Leaf(a2), Node::Leaf(b2)) => {
            assert(items_entries(a2.items@) =~= items_entries(a.items@).drop_last());
            assert(items_entries(b2.items@) =~= seq![items_entries(a.items@).last()] + items_entries(b.items@));
        },
        (Node::Index(a), Node::Index(b), Node::Index(a2), Node::Index(b2)) => {
            lemma_shapes(a.nodes@);
            lemma_shapes(b.nodes@);
            lemma_shapes(a2.nodes@);
            lemma_shapes(b2.nodes@);
            assert(key_seq(a2.keys@) =~= key_seq(a.keys@).drop_last());
            assert(shapes(a2.nodes@) =~= shapes(a.nodes@).drop_last());
            assert(key_seq(b2.keys@) =~= seq![key_of(s)] + key_seq(b.keys@));
            assert(shapes(b2.nodes@) =~= seq![shapes(a.nodes@).last()] + shapes(b.nodes@));
        },
        _ => {},
    }
}

proof fn lemma_moved_right_shapes(l: Node, s: String, r: Node, l2: Node, s2: String, r2: Node)
    requires
        moved_from_right(l, s, r, l2, s2, r2),
        r is Leaf ==> fill(r) >= 2,
        fill(r) >= 1,
        arity_ok(r),
    ensures
        match (l.shape(), r.shape()) {
            (Shape::Leaf(a), Shape::Leaf(b)) => l2.shape() == Shape::Leaf(a.push(b[0]))
                && r2.shape() == Shape::Leaf(b.drop_first()) && key_of(s2) == b[1].0,
            (Shape::Index(ak, an), Shape::Index(bk, bn)) => l2.shape() == Shape::Index(ak.push(key_of(s)), an.push(bn[0]))
                && r2.shape() == Shape::Index(bk.drop_first(), bn.drop_first()) && key_of(s2) == bk[0],
            _ => false,
        },
{
    match (l, r, l2, r2) {
        (Node::Leaf(a), Node::Leaf(b), Node::Leaf(a2), Node::Leaf(b2)) => {
            assert(items_entries(a2.items@) =~= items_entries(a.items@).push(items_entries(b.items@)[0]));
            assert(items_entries(b2.items@) =~= items_entries(b.items@).drop_first());
        },
        (Node::Index(a), Node::Index(b), Node::Index(a2), Node::Index(b2)) => {
            lemma_shapes(a.nodes@);
            lemma_shapes(b.nodes@);
            lemma_shapes(a2.nodes@);
            lemma_shapes(b2.nodes@);
            assert(key_seq(a2.keys@) =~= key_seq(a.keys@).push(key_of(s)));
            assert(shapes(a2.nodes@) =~= shapes(a.nodes@).push(shapes(b.nodes@)[0]));
            assert(key_seq(b2.keys@) =~= key_seq(b.keys@).drop_first());
            assert(shapes(b2.nodes@) =~= shapes(b.nodes@).drop_first());
        },
        _ => {},
    }
}

proof fn lemma_merged_shape(l: Node, s: String, r: Node, m: Node)
    requires
        merged(l, s, r, m),
    ensures
        m.shape() == join_shape(l.shape(), key_of(s), r.shape()),
{
    match (l, r, m) {
        (Node::Leaf(a), Node::Leaf(b), Node::Leaf(c)) => {
            assert(items_entries(c.items@) =~= items_entries(a.items@) + items_entries(b.items@));
        },
        (Node::Index(a), Node::Index(b), Node::Index(c)) => {
            lemma_shapes(a.nodes@);
            lemma_shapes(b.nodes@);
            lemma_shapes(c.nodes@);
            assert(key_seq(c.keys@) =~= key_seq(a.keys@).push(key_of(s)) + key_seq(b.keys@));
            assert(shapes(c.nodes@) =~= shapes(a.nodes@) + shapes(b.nodes@));
        },
        _ => {},
    }
}

proof fn lemma_borrow_at_shape(ix: IndexNode, r: IndexNode, j: int, from_left: bool)
    requires
        borrowed_at(ix, r, j, from_left),
        ix.nodes@.len() == ix.keys@.len() + 1,
        arity_ok(ix.nodes@[j]),
        arity_ok(ix.nodes@[j + 1]),
        from_left ==> fill(ix.nodes@[j]) >= 1,
        !from_left ==> fill(ix.nodes@[j + 1]) >= 1 && (ix.nodes@[j + 1] is Leaf ==> fill(ix.nodes@[j + 1]) >= 2),
    ensures
        Node::Index(r).shape() == if from_left {
            borrow_left_shape(key_seq(ix.keys@), shapes(ix.nodes@), j)
        } else {
            borrow_right_shape(key_seq(ix.keys@), shapes(ix.nodes@), j)
        },
{
    let ks = key_seq(ix.keys@);
    let kids = shapes(ix.nodes@);
    lemma_shapes(ix.nodes@);
    lemma_shapes(r.nodes@);
    let (l, rr, l2, r2) = (ix.nodes@[j], ix.nodes@[j + 1], r.nodes@[j], r.nodes@[j + 1]);
    if from_left {
        lemma_moved_left_shapes(l, ix.keys@[j], rr, l2, r.keys@[j], r2);
        let t = borrow_left_shape(ks, kids, j);
        match (kids[j], kids[j + 1]) {
            (Shape::Leaf(a), Shape::Leaf(b)) => {
                assert(key_seq(r.keys@) =~= ks.update(j, a.last().0));
                assert(shapes(r.nodes@) =~= kids.update(j, Shape::Leaf(a.drop_last())).update(j + 1, Shape::Leaf(seq![a.last()] + b)));
            },
            (Shape::Index(ak, an), Shape::Index(bk, bn)) => {
                assert(key_seq(r.keys@) =~= ks.update(j, ak.last()));
                assert(shapes(r.nodes@) =~= kids.update(j, Shape::Index(ak.drop_last(), an.drop_last()))
                    .update(j + 1, Shape::Index(seq![ks[j]] + bk, seq![an.last()] + bn)));
            },
            _ => {},
        }
    } else {
        lemma_moved_right_shapes(l, ix.keys@[j], rr, l2, r.keys@[j], r2);
        match (kids[j], kids[j + 1]) {
            (Shape::Leaf(a), Shape::Leaf(b)) => {
                assert(key_seq(r.keys@) =~= ks.update(j, b[1].0));
                assert(shapes(r.nodes@) =~= kids.update(j, Shape::Leaf(a.push(b[0]))).update(j + 1, Shape::Leaf(b.drop_first())));
            },
            (Shape::Index(ak, an), Shape::Index(bk, bn)) => {
                assert(key_seq(r.keys@) =~= ks.update(j, bk[0]));
                assert(shapes(r.nodes@) =~= kids.update(j, Shape::Index(ak.push(ks[j]), an.push(bn[0])))
                    .update(j + 1, Shape::Index(bk.drop_first(), bn.drop_first())));
            },
            _ => {},
        }
    }
}

proof fn lemma_merge_at_shape(ix: IndexNode, r: IndexNode, j: int)
    requires
        merged_at(ix, r, j),
        ix.nodes@.len() == ix.keys@.len() + 1,
    ensures
        Node::Index(r).shape() == merge_shape(key_seq(ix.keys@), shapes(ix.nodes@), j),
{
    let ks = key_seq(ix.keys@);
    let kids = shapes(ix.nodes@);
    lemma_shapes(ix.nodes@);
    lemma_shapes(r.nodes@);
    lemma_merged_shape(ix.nodes@[j], ix.keys@[j], ix.nodes@[j + 1], r.nodes@[j]);
    assert(key_seq(r.keys@) =~= ks.remove(j));
    assert(shapes(r.nodes@) =~= kids.update(j, join_shape(kids[j], ks[j], kids[j + 1])).remove(j + 1));
}

/// A run without repeated keys has none in its middle part either.
proof fn lemma_strictly_sorted_mid(pre: Seq<Entry>, mid: Seq<Entry>, post: Seq<Entry>)
    requires
        strictly_sorted(pre + mid + post),
    ensures
        strictly_sorted(mid),
{
    let all = pre + mid + post;
    assert forall|i: int, j: int| 0 <= i < j < mid.len() implies lex_lt(#[trigger] mid[i].0, #[trigger] mid[j].0) by {
        assert(all[pre.len() + i] == mid[i]);
        assert(all[pre.len() + j] == mid[j]);
    }
}

/// Removing from a leaf without repeated keys the item at `p`, whose key is `k`.
proof fn lemma_remove_leaf_shape(root: Node, p: int, k: Seq<u8>, size: nat)
    requires
        root matches Node::Leaf(l) && 0 <= p < l.items@.len() && key_of(l.items@[p].key) == k,
        strictly_sorted(root.entries()),
    ensures
        shape_remove(root.shape(), k, size) == (Shape::Leaf(root.entries().remove(p)), true),
{
    reveal(shape_remove);
    let es = root.entries();
    assert(es[p].0 == k);
    assert(holds_key(es, k));
    let i = key_index(es, k);
    if i != p {
        lemma_lex_lt_irreflexive(k);
        if i < p {
            assert(lex_lt(es[i].0, es[p].0));
        } else {
            assert(lex_lt(es[p].0, es[i].0));
        }
    }
}

/// Removing a key that a leaf does not hold changes nothing.
proof fn lemma_remove_leaf_missing_shape(root: Node, k: Seq<u8>, size: nat)
    requires
        root is Leaf,
        !has_key(root.entries(), k),
    ensures
        shape_remove(root.shape(), k, size) == (root.shape(), false),
{
    reveal(shape_remove);
    if holds_key(root.entries(), k) {
        let i = choose|i: int| 0 <= i < root.entries().len() && root.entries()[i].0 == k;
        assert(root.entries()[i].0 == k);
    }
}

/// Removing below the `pos`-th child of an index page, where the search goes.
proof fn lemma_remove_index_shape(root: Node, keys: Seq<String>, nodes: Seq<Node>, pos: int, k: Seq<u8>, size: nat, c: Node, found: bool)
    requires
        root matches Node::Index(ix) && ix.keys@ == keys && ix.nodes@ == nodes,
        search_pos(key_seq(keys), k) == pos,
        0 <= pos < nodes.len(),
        shape_remove(nodes[pos].shape(), k, size) == (c.shape(), found),
    ensures
        found ==> shape_remove(root.shape(), k, size)
            == (rebalance_shape(key_seq(keys), shapes(nodes.update(pos, c)), pos, size), true),
        !found ==> shape_remove(root.shape(), k, size) == (root.shape(), false),
        !found ==> c.shape() == nodes[pos].shape(),
        !found ==> shapes(nodes.update(pos, c)) == shapes(nodes),
{
    reveal(shape_remove);
    lemma_shapes_update(nodes, pos, c);
    lemma_shapes(nodes);
    assert(root.shape() == Shape::Index(key_seq(keys), shapes(nodes)));
    if !found {
        let t = nodes[pos].shape();
        match t {
            Shape::Leaf(_) => {},
            Shape::Index(_, _) => {},
        }
        assert(c.shape() == nodes[pos].shape());
        assert(shapes(nodes).update(pos, c.shape()) =~= shapes(nodes));
    }
}

/// Two sibling subtrees with separator `s` between them, within the outer bounds.
pub open spec fn pair_wf(l: Node, s: Seq<u8>, r: Node, lo: Option<Seq<u8>>, hi: Option<Seq<u8>>, strict: bool) -> bool {
    &&& l.wf(lo, Some(s), strict)
    &&& r.wf(Some(s), hi, strict)
    &&& sep_in_bounds(s, lo, hi)
    &&& (strict ==> strictly_sorted(l.entries() + r.entries()))
}

/// Both pages are leaves, or both are index pages.
pub open spec fn same_kind(a: Node, b: Node) -> bool {
    (a is Leaf) == (b is Leaf)
}

/// Pages whose leaves lie equally deep are both leaves or both index pages.
proof fn lemma_balanced_same_kind(a: Node, b: Node, e: nat)
    requires
        a.balanced(e),
        b.balanced(e),
    ensures
        same_kind(a, b),
{
}

/// How full a page is.
fn node_fill(n: &Node) -> (r: usize)
    ensures
        r == fill(*n),
{
    match n {
        Node::Leaf(l) => l.items.len(),
        Node::Index(ix) => ix.keys.len(),
    }
}

/// Moves the last item (or child) of the left page into the right page.
#[verifier::spinoff_prover]
#[verifier::rlimit(40)]
fn borrow_from_left(left: Node, sep: String, right: Node,
    Ghost(lo): Ghost<Option<Seq<u8>>>, Ghost(hi): Ghost<Option<Seq<u8>>>, Ghost(strict): Ghost<bool>, Ghost(e): Ghost<nat>, Ghost(h): Ghost<nat>,
    Ghost(z): Ghost<nat>, Ghost(b): Ghost<nat>) -> (r: (Node, String, Node))
    requires
        left.balanced(e),
        right.balanced(e),
        fill(left) >= 1,
        pair_wf(left, key_of(sep), right, lo, hi, false),
        strict ==> pair_wf(left, key_of(sep), right, lo, hi, true),
    ensures
        r.0.entries() + r.2.entries() == left.entries() + right.entries(),
        pair_wf(r.0, key_of(r.1), r.2, lo, hi, false),
        strict ==> pair_wf(r.0, key_of(r.1), r.2, lo, hi, true),
        r.0.balanced(e),
        r.2.balanced(e),
        fill(r.0) + 1 == fill(left),
        fill(r.2) == fill(right) + 1,
        left.filled_below(h) && right.filled_below(h) ==> r.0.filled_below(h) && r.2.filled_below(h),
        left.leaves_within(z) && right.leaves_within(z) && (right is Leaf ==> fill(right) < z)
            ==> r.0.leaves_within(z) && r.2.leaves_within(z),
        left.separators_within(b) && right.separators_within(b) && (right is Index ==> fill(right) < b)
            ==> r.0.separators_within(b) && r.2.separators_within(b),
        moved_from_left(left, sep, right, r.0, r.1, r.2),
{
    proof {
        lemma_balanced_same_kind(left, right, e);
    }
    let ghost s = key_of(sep);
    let ghost total = left.entries() + right.entries();
    match (left, right) {
        (Node::Leaf(mut l), Node::Leaf(mut rr)) => {
            let ghost a = l.items@;
            let ghost b = rr.items@;
            proof {
                lemma_leaf_borrow_left(a, s, b, lo, hi, false);
                if strict {
                    lemma_leaf_borrow_left(a, s, b, lo, hi, true);
                }
            }
            match l.items.pop() {
                Some(x) => {
                    let new_sep = x.key.clone();
                    rr.items.insert(0, x);
                    assert(rr.items@ =~= seq![a.last()] + b);
                    assert(l.items@ =~= a.drop_last());
                    proof {
                        assert(Node::Leaf(l).entries() + Node::Leaf(rr).entries() == total);
                        if strict {
                            assert(strictly_sorted(Node::Leaf(l).entries() + Node::Leaf(rr).entries()));
                            assert(Node::Leaf(l).wf(lo, Some(key_of(new_sep)), true));
                            assert(Node::Leaf(rr).wf(Some(key_of(new_sep)), hi, true));
                        }
                    }
                    (Node::Leaf(l), new_sep, Node::Leaf(rr))
                },
                None => {
                    assert(false);
                    (Node::Leaf(l), sep, Node::Leaf(rr))
                },
            }
        },
        (Node::Index(mut l), Node::Index(mut rr)) => {
            let ghost lk = l.keys@;
            let ghost ln = l.nodes@;
            let ghost rk = rr.keys@;
            let ghost rn = rr.nodes@;
            let ghost m = lk.len() as int;
            let ghost s2 = key_of(lk[m - 1]);
            proof {
                assert(sep_in_bounds(s2, lo, Some(s)));
                assert(lk.subrange(m, m) =~= Seq::<String>::empty());
                assert(ln.subrange(m, m + 1) =~= seq![ln[m]]);
                lemma_index_split(lk, ln, m - 1, lo, Some(s), false);
                lemma_index_join(Seq::empty(), seq![ln[m]], sep, rk, rn, Some(s2), hi, false);
                if strict {
                    lemma_index_split(lk, ln, m - 1, lo, Some(s), true);
                    lemma_index_join(Seq::empty(), seq![ln[m]], sep, rk, rn, Some(s2), hi, true);
                }
                if hi is Some {
                    lemma_lex_le_transitive(s2, s, hi->0);
                }
                lemma_nodes_entries_one(ln[m]);
                lemma_nodes_entries_concat(ln.subrange(0, m), seq![ln[m]]);
                assert(ln.subrange(0, m) + seq![ln[m]] =~= ln);
                lemma_nodes_entries_concat(seq![ln[m]], rn);
            }
            match (l.keys.pop(), l.nodes.pop()) {
                (Some(new_sep), Some(moved)) => {
                    rr.keys.insert(0, sep);
                    rr.nodes.insert(0, moved);
                    assert(l.keys@ =~= lk.subrange(0, m - 1));
                    assert(l.nodes@ =~= ln.subrange(0, m));
                    assert(rr.keys@ =~= Seq::<String>::empty().push(sep) + rk);
                    assert(rr.nodes@ =~= seq![ln[m]] + rn);
                    proof {
                        assert(all_balanced(l.nodes@, (e - 1) as nat));
                        assert(all_balanced(rr.nodes@, (e - 1) as nat));
                        if all_filled(ln, h) && all_filled(rn, h) {
                            assert(all_filled(l.nodes@, h));
                            assert(all_filled(rr.nodes@, h));
                        }
                        if all_leaves_within(ln, z) && all_leaves_within(rn, z) {
                            assert(all_leaves_within(l.nodes@, z));
                            assert(all_leaves_within(rr.nodes@, z));
                        }
                        if all_separators_within(ln, b) && all_separators_within(rn, b) {
                            assert(all_separators_within(l.nodes@, b));
                            assert(all_separators_within(rr.nodes@, b));
                        }
                        assert(Node::Index(l).entries() + Node::Index(rr).entries() == total);
                        if strict {
                            assert(strictly_sorted(Node::Index(l).entries() + Node::Index(rr).entries()));
                            assert(Node::Index(l).wf(lo, Some(key_of(new_sep)), true));
                            assert(Node::Index(rr).wf(Some(key_of(new_sep)), hi, true));
                            assert(sep_in_bounds(key_of(new_sep), lo, hi));
                        }
                    }
                    (Node::Index(l), new_sep, Node::Index(rr))
                },
                _ => {
                    assert(false);
                    (Node::Index(l), sep, Node::Index(rr))
                },
            }
        },
        (l, rr) => {
            assert(false);
            (l, sep, rr)
        },
    }
}

/// Moves the first item (or child) of the right page into the left page.
#[verifier::spinoff_prover]
#[verifier::rlimit(40)]
fn borrow_from_right(left: Node, sep: String, right: Node,
    Ghost(lo): Ghost<Option<Seq<u8>>>, Ghost(hi): Ghost<Option<Seq<u8>>>, Ghost(strict): Ghost<bool>, Ghost(e): Ghost<nat>, Ghost(h): Ghost<nat>,
    Ghost(z): Ghost<nat>, Ghost(b): Ghost<nat>) -> (r: (Node, String, Node))
    requires
        left.balanced(e),
        right.balanced(e),
        right is Leaf ==> fill(right) >= 2,
        fill(right) >= 1,
        pair_wf(left, key_of(sep), right, lo, hi, false),
        strict ==> pair_wf(left, key_of(sep), right, lo, hi, true),
    ensures
        r.0.entries() + r.2.entries() == left.entries() + right.entries(),
        pair_wf(r.0, key_of(r.1), r.2, lo, hi, false),
        strict ==> pair_wf(r.0, key_of(r.1), r.2, lo, hi, true),
        r.0.balanced(e),
        r.2.balanced(e),
        fill(r.0) == fill(left) + 1,
        fill(r.2) + 1 == fill(right),
        left.filled_below(h) && right.filled_below(h) ==> r.0.filled_below(h) && r.2.filled_below(h),
        left.leaves_within(z) && right.leaves_within(z) && (left is Leaf ==> fill(left) < z)
            ==> r.0.leaves_within(z) && r.2.leaves_within(z),
        left.separators_within(b) && right.separators_within(b) && (left is Index ==> fill(left) < b)
            ==> r.0.separators_within(b) && r.2.separators_within(b),
        moved_from_right(left, sep, right, r.0, r.1, r.2),
{
    proof {
        lemma_balanced_same_kind(left, right, e);
    }
    let ghost s = key_of(sep);
    let ghost total = left.entries() + right.entries();
    match (left, right) {
        (Node::Leaf(mut l), Node::Leaf(mut rr)) => {
            let ghost a = l.items@;
            let ghost b = rr.items@;
            proof {
                lemma_leaf_borrow_right(a, s, b, lo, hi, false);
                if strict {
                    lemma_leaf_borrow_right(a, s, b, lo, hi, true);
                }
            }
            let first = rr.items.remove(0);
            let new_sep = rr.items[0].key.clone();
            l.items.push(first);
            assert(rr.items@ =~= b.drop_first());
            assert(l.items@ =~= a.push(b[0]));
            proof {
                assert(Node::Leaf(l).entries() + Node::Leaf(rr).entries() == total);
                if strict {
                    assert(strictly_sorted(Node::Leaf(l).entries() + Node::Leaf(rr).entries()));
                    assert(Node::Leaf(l).wf(lo, Some(key_of(new_sep)), true));
                    assert(Node::Leaf(rr).wf(Some(key_of(new_sep)), hi, true));
                }
            }
            (Node::Leaf(l), new_sep, Node::Leaf(rr))
        },
        (Node::Index(mut l), Node::Index(mut rr)) => {
            let ghost lk = l.keys@;
            let ghost ln = l.nodes@;
            let ghost rk = rr.keys@;
            let ghost rn = rr.nodes@;
            let ghost s2 = key_of(rk[0]);
            proof {
                assert(sep_in_bounds(s2, Some(s), hi));
                assert(rk.subrange(0, 0) =~= Seq::<String>::empty());
                assert(rn.subrange(0, 1) =~= seq![rn[0]]);
                lemma_index_split(rk, rn, 0, Some(s), hi, false);
                lemma_index_join(lk, ln, sep, Seq::empty(), seq![rn[0]], lo, Some(s2), false);
                if strict {
                    lemma_index_split(rk, rn, 0, Some(s), hi, true);
                    lemma_index_join(lk, ln, sep, Seq::empty(), seq![rn[0]], lo, Some(s2), true);
                }
                if lo is Some {
                    lemma_lex_le_transitive(lo->0, s, s2);
                }
                lemma_nodes_entries_one(rn[0]);
                lemma_nodes_entries_concat(seq![rn[0]], rn.subrange(1, rn.len() as int));
                assert(seq![rn[0]] + rn.subrange(1, rn.len() as int) =~= rn);
                lemma_nodes_entries_concat(ln, seq![rn[0]]);
            }
            let new_sep = rr.keys.remove(0);
            let moved = rr.nodes.remove(0);
            l.keys.push(sep);
            l.nodes.push(moved);
            assert(l.keys@ =~= lk.push(sep) + Seq::<String>::empty());
            assert(l.nodes@ =~= ln + seq![rn[0]]);
            assert(rr.keys@ =~= rk.subrange(1, rk.len() as int));
            assert(rr.nodes@ =~= rn.subrange(1, rn.len() as int));
            proof {
                assert(all_balanced(l.nodes@, (e - 1) as nat));
                assert(all_balanced(rr.nodes@, (e - 1) as nat));
                if all_filled(ln, h) && all_filled(rn, h) {
                    assert(all_filled(l.nodes@, h));
                    assert(all_filled(rr.nodes@, h));
                }
                if all_leaves_within(ln, z) && all_leaves_within(rn, z) {
                    assert(all_leaves_within(l.nodes@, z));
                    assert(all_leaves_within(rr.nodes@, z));
                }
                if all_separators_within(ln, b) && all_separators_within(rn, b) {
                    assert(all_separators_within(l.nodes@, b));
                    assert(all_separators_within(rr.nodes@, b));
                }
                assert(Node::Index(l).entries() + Node::Index(rr).entries() == total);
                if strict {
                    assert(strictly_sorted(Node::Index(l).entries() + Node::Index(rr).entries()));
                    assert(Node::Index(l).wf(lo, Some(key_of(new_sep)), true));
                    assert(Node::Index(rr).wf(Some(key_of(new_sep)), hi, true));
                    assert(sep_in_bounds(key_of(new_sep), lo, hi));
                }
            }
            (Node::Index(l), new_sep, Node::Index(rr))
        },
        (l, rr) => {
            assert(false);
            (l, sep, rr)
        },
    }
}

/// Joins two sibling pages, with their separator between them where they are index pages.
#[verifier::spinoff_prover]
#[verifier::rlimit(40)]
fn merge_pages(left: Node, sep: String, right: Node,
    Ghost(lo): Ghost<Option<Seq<u8>>>, Ghost(hi): Ghost<Option<Seq<u8>>>, Ghost(strict): Ghost<bool>, Ghost(e): Ghost<nat>, Ghost(h): Ghost<nat>,
    Ghost(z): Ghost<nat>, Ghost(b): Ghost<nat>) -> (r: Node)
    requires
        left.balanced(e),
        right.balanced(e),
        pair_wf(left, key_of(sep), right, lo, hi, false),
        strict ==> pair_wf(left, key_of(sep), right, lo, hi, true),
    ensures
        r.entries() == left.entries() + right.entries(),
        r.wf(lo, hi, false),
        strict ==> r.wf(lo, hi, true),
        r.balanced(e),
        fill(r) == fill(left) + fill(right) + if left is Index { 1nat } else { 0nat },
        left.filled_below(h) && right.filled_below(h) ==> r.filled_below(h),
        left.leaves_within(z) && right.leaves_within(z) && (left is Leaf ==> fill(left) + fill(right) <= z)
            ==> r.leaves_within(z),
        left.separators_within(b) && right.separators_within(b) && (left is Index ==> fill(left) + fill(right) + 1 <= b)
            ==> r.separators_within(b),
        merged(left, sep, right, r),
{
    proof {
        lemma_balanced_same_kind(left, right, e);
    }
    let ghost s = key_of(sep);
    match (left, right) {
        (Node::Leaf(mut l), Node::Leaf(mut rr)) => {
            let ghost a = l.items@;
            let ghost b = rr.items@;
            proof {
                lemma_leaf_merge(a, s, b, lo, hi, false);
                if strict {
                    lemma_leaf_merge(a, s, b, lo, hi, true);
                }
            }
            l.items.append(&mut rr.items);
            Node::Leaf(l)
        },
        (Node::Index(mut l), Node::Index(mut rr)) => {
            proof {
                lemma_index_join(l.keys@, l.nodes@, sep, rr.keys@, rr.nodes@, lo, hi, false);
                if strict {
                    lemma_index_join(l.keys@, l.nodes@, sep, rr.keys@, rr.nodes@, lo, hi, true);
                }
            }
            let ghost ln = l.nodes@;
            let ghost rn = rr.nodes@;
            l.keys.push(sep);
            l.keys.append(&mut rr.keys);
            l.nodes.append(&mut rr.nodes);
            assert(l.nodes@ == ln + rn);
            assert(all_balanced(l.nodes@, (e - 1) as nat));
            proof {
                if all_filled(ln, h) && all_filled(rn, h) {
                    assert(all_filled(l.nodes@, h));
                }
                if all_leaves_within(ln, z) && all_leaves_within(rn, z) {
                    assert(all_leaves_within(l.nodes@, z));
                }
                if all_separators_within(ln, b) && all_separators_within(rn, b) {
                    assert(all_separators_within(l.nodes@, b));
                }
            }
            Node::Index(l)
        },
        (l, _) => {
            assert(false);
            l
        },
    }
}

/// The entries of a list of subtrees with two neighbours taken apart.
pub proof fn lemma_nodes_entries_pair(s: Seq<Node>, j: int)
    requires
        0 <= j && j + 1 < s.len(),
    ensures
        nodes_entries(s) == nodes_entries(s.subrange(0, j)) + (s[j].entries() + s[j + 1].entries())
            + nodes_entries(s.subrange(j + 2, s.len() as int)),
{
    lemma_nodes_entries_at(s, j);
    let tail = s.subrange(j + 1, s.len() as int);
    lemma_nodes_entries_at(tail, 0);
    assert(tail.subrange(0, 0) =~= Seq::<Node>::empty());
    assert(nodes_entries(Seq::<Node>::empty()) =~= Seq::<Entry>::empty());
    assert(tail.subrange(1, tail.len() as int) =~= s.subrange(j + 2, s.len() as int));
    assert(tail[0] == s[j + 1]);
    let pre = nodes_entries(s.subrange(0, j));
    let post = nodes_entries(s.subrange(j + 2, s.len() as int));
    assert(nodes_entries(tail) =~= s[j + 1].entries() + post);
    assert(nodes_entries(s) =~= pre + (s[j].entries() + s[j + 1].entries()) + post);
}

/// Two neighbouring children of a search tree, with their separator.
pub proof fn lemma_index_pair(keys: Seq<String>, nodes: Seq<Node>, j: int, lo: Option<Seq<u8>>, hi: Option<Seq<u8>>, strict: bool)
    requires
        index_wf(keys, nodes, lo, hi, strict),
        strict ==> strictly_sorted(nodes_entries(nodes)),
        0 <= j < keys.len(),
    ensures
        pair_wf(nodes[j], key_of(keys[j]), nodes[j + 1], child_lo(keys, lo, j), child_hi(keys, hi, j + 1), strict),
{
    assert(nodes[j].wf(child_lo(keys, lo, j), child_hi(keys, hi, j), strict));
    assert(nodes[j + 1].wf(child_lo(keys, lo, j + 1), child_hi(keys, hi, j + 1), strict));
    assert(sep_in_bounds(key_of(keys[j]), lo, hi));
    if j > 0 {
        assert(lex_le(key_of(keys[j - 1]), key_of(keys[j])));
    }
    if j + 1 < keys.len() {
        assert(lex_le(key_of(keys[j]), key_of(keys[j + 1])));
    }
    lemma_nodes_entries_pair(nodes, j);
    lemma_middle_of_run(nodes_entries(nodes.subrange(0, j)), nodes[j].entries() + nodes[j + 1].entries(),
        nodes_entries(nodes.subrange(j + 2, nodes.len() as int)), Seq::empty());
}

/// Two neighbouring children and their separator replaced by others within the same bounds.
pub proof fn lemma_index_replace_pair(keys: Seq<String>, nodes: Seq<Node>, j: int, l: Node, s: String, r: Node,
    lo: Option<Seq<u8>>, hi: Option<Seq<u8>>, strict: bool)
    requires
        index_wf(keys, nodes, lo, hi, strict),
        0 <= j < keys.len(),
        l.wf(child_lo(keys, lo, j), Some(key_of(s)), strict),
        r.wf(Some(key_of(s)), child_hi(keys, hi, j + 1), strict),
        sep_in_bounds(key_of(s), child_lo(keys, lo, j), child_hi(keys, hi, j + 1)),
    ensures
        index_wf(keys.update(j, s), nodes.update(j, l).update(j + 1, r), lo, hi, strict),
        nodes_entries(nodes.update(j, l).update(j + 1, r)) == nodes_entries(nodes.subrange(0, j))
            + (l.entries() + r.entries()) + nodes_entries(nodes.subrange(j + 2, nodes.len() as int)),
{
    let k2 = keys.update(j, s);
    let t = nodes.update(j, l).update(j + 1, r);
    let ks = key_of(s);
    if j > 0 {
        assert(sep_in_bounds(key_of(keys[j - 1]), lo, hi));
    }
    if j + 1 < keys.len() {
        assert(sep_in_bounds(key_of(keys[j + 1]), lo, hi));
    }
    assert(lo_le(lo, child_lo(keys, lo, j)));
    assert(hi_le(child_hi(keys, hi, j + 1), hi));
    lemma_in_bounds_widen(ks, child_lo(keys, lo, j), child_hi(keys, hi, j + 1), lo, hi, false);
    assert forall|a: int, b: int| 0 <= a < b < k2.len() implies lex_le(#[trigger] key_of(k2[a]), #[trigger] key_of(k2[b])) by {
        if a != j && b != j {
            assert(k2[a] == keys[a] && k2[b] == keys[b]);
        } else if a == j {
            assert(k2[b] == keys[b]);
            if b > j + 1 {
                assert(lex_le(key_of(keys[j + 1]), key_of(keys[b])));
            }
            lemma_lex_le_transitive(ks, key_of(keys[j + 1]), key_of(keys[b]));
        } else {
            assert(k2[a] == keys[a]);
            if a < j - 1 {
                assert(lex_le(key_of(keys[a]), key_of(keys[j - 1])));
            }
            lemma_lex_le_transitive(key_of(keys[a]), key_of(keys[j - 1]), ks);
        }
    }
    assert forall|i: int| #![trigger k2[i]] 0 <= i < k2.len() implies sep_in_bounds(key_of(k2[i]), lo, hi) by {
        if i != j {
            assert(k2[i] == keys[i]);
        }
    }
    assert forall|i: int| #![trigger t[i]] 0 <= i < t.len() implies t[i].wf(child_lo(k2, lo, i), child_hi(k2, hi, i), strict) by {
        if i < j || i > j + 1 {
            assert(t[i] == nodes[i]);
            assert(child_lo(k2, lo, i) == child_lo(keys, lo, i));
            assert(child_hi(k2, hi, i) == child_hi(keys, hi, i));
        } else if i == j {
            assert(child_lo(k2, lo, i) == child_lo(keys, lo, i));
        } else {
            assert(child_hi(k2, hi, i) == child_hi(keys, hi, i));
        }
    }
    lemma_nodes_entries_pair(t, j);
    assert(t.subrange(0, j) =~= nodes.subrange(0, j));
    assert(t.subrange(j + 2, t.len() as int) =~= nodes.subrange(j + 2, nodes.len() as int));
}

/// Two neighbouring children replaced by their merge, and their separator dropped.
pub proof fn lemma_index_merge_pair(keys: Seq<String>, nodes: Seq<Node>, j: int, m: Node,
    lo: Option<Seq<u8>>, hi: Option<Seq<u8>>, strict: bool)
    requires
        index_wf(keys, nodes, lo, hi, strict),
        0 <= j < keys.len(),
        m.wf(child_lo(keys, lo, j), child_hi(keys, hi, j + 1), strict),
    ensures
        index_wf(keys.remove(j), nodes.update(j, m).remove(j + 1), lo, hi, strict),
        nodes_entries(nodes.update(j, m).remove(j + 1)) == nodes_entries(nodes.subrange(0, j))
            + m.entries() + nodes_entries(nodes.subrange(j + 2, nodes.len() as int)),
{
    let k2 = keys.remove(j);
    let t = nodes.update(j, m).remove(j + 1);
    assert forall|a: int, b: int| 0 <= a < b < k2.len() implies lex_le(#[trigger] key_of(k2[a]), #[trigger] key_of(k2[b])) by {
        let a0 = if a < j { a } else { a + 1 };
        let b0 = if b < j { b } else { b + 1 };
        assert(k2[a] == keys[a0] && k2[b] == keys[b0]);
    }
    assert forall|i: int| #![trigger k2[i]] 0 <= i < k2.len() implies sep_in_bounds(key_of(k2[i]), lo, hi) by {
        let i0 = if i < j { i } else { i + 1 };
        assert(k2[i] == keys[i0]);
    }
    assert forall|i: int| #![trigger t[i]] 0 <= i < t.len() implies t[i].wf(child_lo(k2, lo, i), child_hi(k2, hi, i), strict) by {
        if i < j {
            assert(t[i] == nodes[i]);
            assert(child_lo(k2, lo, i) == child_lo(keys, lo, i));
            assert(child_hi(k2, hi, i) == child_hi(keys, hi, i));
        } else if i == j {
            assert(t[i] == m);
            assert(child_lo(k2, lo, i) == child_lo(keys, lo, j));
            assert(child_hi(k2, hi, i) == child_hi(keys, hi, j + 1));
        } else {
            assert(t[i] == nodes[i + 1]);
            assert(child_lo(k2, lo, i) == child_lo(keys, lo, i + 1));
            assert(child_hi(k2, hi, i) == child_hi(keys, hi, i + 1));
        }
    }
    lemma_nodes_entries_at(t, j);
    assert(t.subrange(0, j) =~= nodes.subrange(0, j));
    assert(t.subrange(j + 1, t.len() as int) =~= nodes.subrange(j + 2, nodes.len() as int));
}

/// The children of `ix` are a search tree within the bounds.
pub open spec fn index_ok(ix: IndexNode, lo: Option<Seq<u8>>, hi: Option<Seq<u8>>, strict: bool) -> bool {
    &&& index_wf(ix.keys@, ix.nodes@, lo, hi, false)
    &&& (strict ==> index_wf(ix.keys@, ix.nodes@, lo, hi, true) && strictly_sorted(nodes_entries(ix.nodes@)))
}

/// The pages of the list are filled, but for the `p`-th, whose pages below
/// are filled and which, if a leaf, holds at least `h - 1` items.
pub open spec fn filled_but_one(nodes: Seq<Node>, p: int, h: nat) -> bool {
    &&& 0 <= p < nodes.len()
    &&& forall|i: int| #![trigger nodes[i]] 0 <= i < nodes.len() && i != p ==> nodes[i].filled(h)
    &&& nodes[p].filled_below(h)
    &&& (nodes[p] is Leaf ==> fill(nodes[p]) + 1 >= h)
}

/// A filled page has its pages below filled.
proof fn lemma_filled_below(n: Node, h: nat)
    requires
        n.filled(h),
    ensures
        n.filled_below(h),
        n is Leaf ==> fill(n) >= h,
        n is Index ==> fill(n) >= 1,
{
}

/// Moves one item or child between the `j`-th and `(j + 1)`-th children of
/// `ix`: from the left one into the right one where `from_left`, the other
/// way otherwise.
#[verifier::spinoff_prover]
#[verifier::rlimit(60)]
fn borrow_at(ix: IndexNode, j: usize, from_left: bool,
    Ghost(lo): Ghost<Option<Seq<u8>>>, Ghost(hi): Ghost<Option<Seq<u8>>>, Ghost(strict): Ghost<bool>,
    Ghost(e): Ghost<nat>, Ghost(h): Ghost<nat>, Ghost(z): Ghost<nat>, Ghost(b): Ghost<nat>) -> (r: IndexNode)
    requires
        h <= b,
        index_ok(ix, lo, hi, strict),
        j < ix.keys@.len(),
        all_balanced(ix.nodes@, e),
        h >= 1,
        h <= z,
        filled_but_one(ix.nodes@, if from_left { j + 1 } else { j as int }, h),
        fill(ix.nodes@[if from_left { j + 1 } else { j as int }]) < h,
        fill(ix.nodes@[if from_left { j as int } else { j + 1 }]) > h,
    ensures
        all_leaves_within(ix.nodes@, z) ==> all_leaves_within(r.nodes@, z),
        all_separators_within(ix.nodes@, b) ==> all_separators_within(r.nodes@, b),
        borrowed_at(ix, r, j as int, from_left),
        nodes_entries(r.nodes@) == nodes_entries(ix.nodes@),
        index_wf(r.keys@, r.nodes@, lo, hi, false),
        strict ==> index_wf(r.keys@, r.nodes@, lo, hi, true),
        all_balanced(r.nodes@, e),
        all_filled(r.nodes@, h),
        r.keys@.len() == ix.keys@.len(),
{
    let ghost keys = ix.keys@;
    let ghost nodes = ix.nodes@;
    let ghost clo = child_lo(keys, lo, j as int);
    let ghost chi = child_hi(keys, hi, j + 1);
    proof {
        lemma_index_pair(keys, nodes, j as int, lo, hi, false);
        if strict {
            lemma_index_pair(keys, nodes, j as int, lo, hi, true);
        }
        lemma_nodes_entries_pair(nodes, j as int);
        if from_left {
            lemma_filled_below(nodes[j as int], h);
        } else {
            lemma_filled_below(nodes[j + 1], h);
        }
    }
    let mut ix = ix;
    assert(j < ix.nodes.len());
    let right = ix.nodes.remove(j + 1);
    let left = ix.nodes.remove(j);
    let sep = ix.keys.remove(j);
    assert(left == nodes[j as int] && right == nodes[j + 1] && sep == keys[j as int]);
    let (l2, s2, r2) = if from_left {
        borrow_from_left(left, sep, right, Ghost(clo), Ghost(chi), Ghost(strict), Ghost(e), Ghost(h), Ghost(z), Ghost(b))
    } else {
        borrow_from_right(left, sep, right, Ghost(clo), Ghost(chi), Ghost(strict), Ghost(e), Ghost(h), Ghost(z), Ghost(b))
    };
    ix.keys.insert(j, s2);
    ix.nodes.insert(j, l2);
    ix.nodes.insert(j + 1, r2);
    proof {
        assert(ix.keys@ =~= keys.update(j as int, s2));
        assert(ix.nodes@ =~= nodes.update(j as int, l2).update(j + 1, r2));
        assert(all_balanced(ix.nodes@, e));
        assert(l2.filled(h));
        assert(r2.filled(h));
        assert(all_filled(ix.nodes@, h));
        if all_leaves_within(nodes, z) {
            assert(nodes[j as int].leaves_within(z) && nodes[j + 1].leaves_within(z));
            assert(l2.leaves_within(z) && r2.leaves_within(z));
            assert(all_leaves_within(ix.nodes@, z));
        }
        if all_separators_within(nodes, b) {
            assert(nodes[j as int].separators_within(b) && nodes[j + 1].separators_within(b));
            assert(l2.separators_within(b) && r2.separators_within(b));
            assert(all_separators_within(ix.nodes@, b));
        }
        lemma_index_replace_pair(keys, nodes, j as int, l2, s2, r2, lo, hi, false);
        if strict {
            lemma_index_replace_pair(keys, nodes, j as int, l2, s2, r2, lo, hi, true);
        }
    }
    ix
}

/// Merges the `j`-th and `(j + 1)`-th children of `ix` and drops their separator.
#[verifier::spinoff_prover]
#[verifier::rlimit(60)]
fn merge_at(ix: IndexNode, j: usize,
    Ghost(lo): Ghost<Option<Seq<u8>>>, Ghost(hi): Ghost<Option<Seq<u8>>>, Ghost(strict): Ghost<bool>,
    Ghost(e): Ghost<nat>, Ghost(h): Ghost<nat>, Ghost(p): Ghost<int>, Ghost(z): Ghost<nat>, Ghost(b): Ghost<nat>) -> (r: IndexNode)
    requires
        h + h <= b,
        index_ok(ix, lo, hi, strict),
        j < ix.keys@.len(),
        all_balanced(ix.nodes@, e),
        p == j || p == j + 1,
        filled_but_one(ix.nodes@, p, h),
        h + h <= z + 1,
        fill(ix.nodes@[p]) < h,
        fill(ix.nodes@[if p == j { j + 1 } else { j as int }]) <= h,
    ensures
        all_leaves_within(ix.nodes@, z) ==> all_leaves_within(r.nodes@, z),
        all_separators_within(ix.nodes@, b) ==> all_separators_within(r.nodes@, b),
        merged_at(ix, r, j as int),
        nodes_entries(r.nodes@) == nodes_entries(ix.nodes@),
        index_wf(r.keys@, r.nodes@, lo, hi, false),
        strict ==> index_wf(r.keys@, r.nodes@, lo, hi, true),
        r.keys@.len() + 1 == ix.keys@.len(),
        all_balanced(r.nodes@, e),
        all_filled(r.nodes@, h),
{
    let ghost keys = ix.keys@;
    let ghost nodes = ix.nodes@;
    let ghost clo = child_lo(keys, lo, j as int);
    let ghost chi = child_hi(keys, hi, j + 1);
    proof {
        lemma_index_pair(keys, nodes, j as int, lo, hi, false);
        if strict {
            lemma_index_pair(keys, nodes, j as int, lo, hi, true);
        }
        lemma_nodes_entries_pair(nodes, j as int);
        if p == j {
            lemma_filled_below(nodes[j + 1], h);
        } else {
            lemma_filled_below(nodes[j as int], h);
        }
    }
    let mut ix = ix;
    assert(j < ix.nodes.len());
    let right = ix.nodes.remove(j + 1);
    let left = ix.nodes.remove(j);
    let sep = ix.keys.remove(j);
    assert(left == nodes[j as int] && right == nodes[j + 1] && sep == keys[j as int]);
    let m = merge_pages(left, sep, right, Ghost(clo), Ghost(chi), Ghost(strict), Ghost(e), Ghost(h), Ghost(z), Ghost(b));
    ix.nodes.insert(j, m);
    proof {
        assert(ix.keys@ =~= keys.remove(j as int));
        assert(ix.nodes@ =~= nodes.update(j as int, m).remove(j + 1));
        assert(all_balanced(ix.nodes@, e));
        assert(m.filled(h));
        assert(all_filled(ix.nodes@, h));
        if all_leaves_within(nodes, z) {
            assert(nodes[j as int].leaves_within(z) && nodes[j + 1].leaves_within(z));
            assert(m.leaves_within(z));
            assert(all_leaves_within(ix.nodes@, z));
        }
        if all_separators_within(nodes, b) {
            assert(nodes[j as int].separators_within(b) && nodes[j + 1].separators_within(b));
            assert(m.separators_within(b));
            assert(all_separators_within(ix.nodes@, b));
        }
        lemma_index_merge_pair(keys, nodes, j as int, m, lo, hi, false);
        if strict {
            lemma_index_merge_pair(keys, nodes, j as int, m, lo, hi, true);
        }
    }
    ix
}

/// After a removal below the `pos`-th child of `ix`: where that child holds
/// fewer than half of `size` items or separators, it borrows one from its
/// left sibling if that has more than half, else from its right sibling if
/// that has more than half, else it is merged with its left sibling, or
/// with its right sibling where it is the first child.
#[verifier::spinoff_prover]
#[verifier::rlimit(40)]
pub fn rebalance(ix: IndexNode, pos: usize, size: usize,
    Ghost(lo): Ghost<Option<Seq<u8>>>, Ghost(hi): Ghost<Option<Seq<u8>>>, Ghost(strict): Ghost<bool>,
    Ghost(e): Ghost<nat>) -> (r: (IndexNode, RemoveContinue))
    requires
        index_ok(ix, lo, hi, strict),
        all_balanced(ix.nodes@, e),
        size >= 2,
        ix.keys@.len() >= 1,
        filled_but_one(ix.nodes@, pos as int, half_of(size as nat)),
    ensures
        nodes_entries(r.0.nodes@) == nodes_entries(ix.nodes@),
        index_wf(r.0.keys@, r.0.nodes@, lo, hi, false),
        strict ==> index_wf(r.0.keys@, r.0.nodes@, lo, hi, true),
        all_balanced(r.0.nodes@, e),
        all_filled(r.0.nodes@, half_of(size as nat)),
        all_leaves_within(ix.nodes@, size as nat) ==> all_leaves_within(r.0.nodes@, size as nat),
        all_separators_within(ix.nodes@, max_separators(size as nat)) ==> all_separators_within(r.0.nodes@, max_separators(size as nat)),
        r.0.keys@.len() + 1 >= ix.keys@.len(),
        r.0.keys@.len() <= ix.keys@.len(),
        ({
            let h = half_of(size as nat);
            let nodes = ix.nodes@;
            let c = fill(nodes[pos as int]);
            let left_spares = pos > 0 && fill(nodes[pos - 1]) > h;
            let right_spares = pos + 1 < nodes.len() && fill(nodes[pos + 1]) > h;
            &&& c >= h ==> r.0 == ix && r.1 is Normal
            &&& c < h && left_spares ==> borrowed_at(ix, r.0, pos - 1, true) && r.1 is Normal
            &&& c < h && !left_spares && right_spares ==> borrowed_at(ix, r.0, pos as int, false) && r.1 is Normal
            &&& c < h && !left_spares && !right_spares && pos > 0 ==> merged_at(ix, r.0, pos - 1) && r.1 is ParentBeRemove
            &&& c < h && !left_spares && !right_spares && pos == 0 ==> merged_at(ix, r.0, 0) && r.1 is ParentBeRemove
        }),
        Node::Index(r.0).shape() == rebalance_shape(key_seq(ix.keys@), shapes(ix.nodes@), pos as int, size as nat),
{
    let ghost h = half_of(size as nat);
    let ghost z = size as nat;
    let ghost b = max_separators(size as nat);
    let half = size / 2 + size % 2;
    assert(half == h);
    assert(h <= z && h + h <= z + 1);
    assert(pos < ix.nodes.len());
    proof {
        lemma_shapes(ix.nodes@);
        assert forall|i: int| 0 <= i < ix.nodes@.len() implies
            #[trigger] shape_fill(shapes(ix.nodes@)[i]) == fill(ix.nodes@[i]) && arity_ok(ix.nodes@[i]) by {
            lemma_fill_shape(ix.nodes@[i]);
            assert(ix.nodes@[i].wf(child_lo(ix.keys@, lo, i), child_hi(ix.keys@, hi, i), false));
        }
    }
    let c_fill = node_fill(&ix.nodes[pos]);
    if c_fill >= half {
        assert(ix.nodes@[pos as int].filled(h));
        assert(all_filled(ix.nodes@, h));
        return (ix, RemoveContinue::Normal);
    }
    if pos > 0 {
        let l_fill = node_fill(&ix.nodes[pos - 1]);
        if l_fill > half {
            let ghost ix0 = ix;
            let r = borrow_at(ix, pos - 1, true, Ghost(lo), Ghost(hi), Ghost(strict), Ghost(e), Ghost(h), Ghost(z), Ghost(b));
            proof {
                lemma_borrow_at_shape(ix0, r, pos - 1, true);
            }
            return (r, RemoveContinue::Normal);
        }
        if pos + 1 < ix.nodes.len() {
            let r_fill = node_fill(&ix.nodes[pos + 1]);
            if r_fill > half {
                let ghost ix0 = ix;
                let r = borrow_at(ix, pos, false, Ghost(lo), Ghost(hi), Ghost(strict), Ghost(e), Ghost(h), Ghost(z), Ghost(b));
                proof {
                    lemma_borrow_at_shape(ix0, r, pos as int, false);
                }
                return (r, RemoveContinue::Normal);
            }
        }
        let ghost ix0 = ix;
        let r = merge_at(ix, pos - 1, Ghost(lo), Ghost(hi), Ghost(strict), Ghost(e), Ghost(h), Ghost(pos as int), Ghost(z), Ghost(b));
        proof {
            lemma_merge_at_shape(ix0, r, pos - 1);
        }
        (r, RemoveContinue::ParentBeRemove)
    } else {
        // the first child always has a right sibling: the page has a separator
        assert(pos + 1 < ix.nodes.len());
        let r_fill = node_fill(&ix.nodes[pos + 1]);
        if r_fill > half {
            let ghost ix0 = ix;
            let r = borrow_at(ix, pos, false, Ghost(lo), Ghost(hi), Ghost(strict), Ghost(e), Ghost(h), Ghost(z), Ghost(b));
            proof {
                lemma_borrow_at_shape(ix0, r, pos as int, false);
            }
            (r, RemoveContinue::Normal)
        } else {
            let ghost ix0 = ix;
            let r = merge_at(ix, pos, Ghost(lo), Ghost(hi), Ghost(strict), Ghost(e), Ghost(h), Ghost(pos as int), Ghost(z), Ghost(b));
            proof {
                lemma_merge_at_shape(ix0, r, pos as int);
            }
            (r, RemoveContinue::ParentBeRemove)
        }
    }
}

/// `new` is `old` without one entry whose key is `k`.
pub open spec fn removed_one(old: Seq<Entry>, new: Seq<Entry>, k: Seq<u8>) -> bool {
    exists|i: int| 0 <= i < old.len() && #[trigger] old[i].0 == k && new == old.remove(i)
}

/// Binary search for an item with key `key` among the items of a leaf.
fn find_index(key: &str, items: &Vec<Item>) -> (r: Option<usize>)
    ensures
        r matches Some(i) ==> i < items@.len() && key_of(items@[i as int].key) == encode_utf8(key@),
        r is None && sorted(items_entries(items@)) ==> !has_key(items_entries(items@), encode_utf8(key@)),
{
    let ghost k = encode_utf8(key@);
    let ghost e = items_entries(items@);
    let mut lo: usize = 0;
    let mut hi: usize = items.len();
    while lo < hi
        invariant
            0 <= lo <= hi <= items@.len(),
            e == items_entries(items@),
            k == encode_utf8(key@),
            sorted(e) ==> forall|i: int| 0 <= i < lo ==> lex_lt(#[trigger] e[i].0, k),
            sorted(e) ==> forall|i: int| hi <= i < items@.len() ==> lex_lt(k, #[trigger] e[i].0),
        decreases hi - lo,
    {
        let mid = lo + (hi - lo) / 2;
        assert(e[mid as int].0 == key_of(items@[mid as int].key));
        match compare_key(&items[mid].key, key) {
            KeyOrder::Equal => return Some(mid),
            KeyOrder::Less => {
                proof {
                    if sorted(e) {
                        assert forall|i: int| 0 <= i < mid + 1 implies lex_lt(#[trigger] e[i].0, k) by {
                            if i < mid {
                                lemma_lex_le_transitive(e[i].0, e[mid as int].0, k);
                            }
                        }
                    }
                }
                lo = mid + 1;
            },
            KeyOrder::Greater => {
                proof {
                    lemma_lex_lt_total(k, e[mid as int].0);
                    if sorted(e) {
                        assert forall|i: int| mid <= i < items@.len() implies lex_lt(k, #[trigger] e[i].0) by {
                            if i > mid {
                                lemma_lex_le_transitive(k, e[mid as int].0, e[i].0);
                            }
                        }
                    }
                }
                hi = mid;
            },
        }
    }
    proof {
        if sorted(e) {
            assert forall|i: int| 0 <= i < e.len() implies #[trigger] e[i].0 != k by {
                if e[i].0 == k {
                    lemma_lex_lt_irreflexive(k);
                }
            }
        }
    }
    None
}

/// A leaf with one item taken out is still within its bounds and in order.
proof fn lemma_leaf_remove(items: Seq<Item>, p: int, lo: Option<Seq<u8>>, hi: Option<Seq<u8>>, strict: bool)
    requires
        0 <= p < items.len(),
        leaf_wf(items, lo, hi, strict),
    ensures
        leaf_wf(items.remove(p), lo, hi, strict),
        items_entries(items.remove(p)) == items_entries(items).remove(p),
{
    let s = items_entries(items);
    let t = items_entries(items.remove(p));
    assert(t =~= s.remove(p));
    assert forall|i: int, j: int| 0 <= i < j < t.len() implies lex_le(#[trigger] t[i].0, #[trigger] t[j].0) by {
        let i0 = if i < p { i } else { i + 1 };
        let j0 = if j < p { j } else { j + 1 };
        assert(t[i] == s[i0] && t[j] == s[j0]);
    }
    assert forall|i: int| 0 <= i < t.len() implies in_bounds(#[trigger] t[i].0, lo, hi, strict) by {
        let i0 = if i < p { i } else { i + 1 };
        assert(t[i] == s[i0]);
    }
}

/// Removing an entry from the middle run of three.
proof fn lemma_remove_middle(a: Seq<Entry>, b: Seq<Entry>, c: Seq<Entry>, i: int)
    requires
        0 <= i < b.len(),
    ensures
        (a + b + c).remove(a.len() + i) == a + b.remove(i) + c,
        (a + b + c)[a.len() + i] == b[i],
{
    assert((a + b + c).remove(a.len() + i) =~= a + b.remove(i) + c);
}

/// A run without repeated keys keeps that property when one entry leaves it.
proof fn lemma_strictly_sorted_remove(s: Seq<Entry>, p: int)
    requires
        0 <= p < s.len(),
        strictly_sorted(s),
    ensures
        strictly_sorted(s.remove(p)),
{
    let t = s.remove(p);
    assert forall|i: int, j: int| 0 <= i < j < t.len() implies lex_lt(#[trigger] t[i].0, #[trigger] t[j].0) by {
        let i0 = if i < p { i } else { i + 1 };
        let j0 = if j < p { j } else { j + 1 };
        assert(t[i] == s[i0] && t[j] == s[j0]);
    }
}

impl BPlusTree {
    /// Removes one item with key `key` below `root`, then lets each page on
    /// the way back up borrow for, or merge, the child it descended into. At
    /// the root (`is_root`) a removal reports `End`, below it `Continue`.
    #[verifier::spinoff_prover]
    #[verifier::rlimit(40)]
    pub fn remove_inner(key: &str, root: Node, size: usize, is_root: bool,
        Ghost(lo): Ghost<Option<Seq<u8>>>, Ghost(hi): Ghost<Option<Seq<u8>>>, Ghost(d): Ghost<nat>) -> (r: (Node, RemoveResult))
        requires
            size >= 2,
            root.wf(lo, hi, false),
            root.balanced(d),
            root.filled_below(half_of(size as nat)),
            root is Index ==> fill(root) >= 1,
        ensures
            is_root ==> r.1 is NotFound || r.1 is End,
            !is_root ==> r.1 is NotFound || r.1 is Continue,
            r.1 is NotFound ==> r.0.entries() == root.entries(),
            r.1 is NotFound && root.wf(lo, hi, true) ==> !has_key(root.entries(), encode_utf8(key@)) && r.0.wf(lo, hi, true),
            !(r.1 is NotFound) ==> removed_one(root.entries(), r.0.entries(), encode_utf8(key@)),
            r.0.wf(lo, hi, false),
            root.wf(lo, hi, true) && strictly_sorted(root.entries()) ==> r.0.wf(lo, hi, true),
            r.0.balanced(d),
            r.0.filled_below(half_of(size as nat)),
            fill(r.0) + 1 >= fill(root),
            r.1 is NotFound ==> fill(r.0) == fill(root),
            root.leaves_within(size as nat) ==> r.0.leaves_within(size as nat),
            root.separators_within(max_separators(size as nat)) ==> r.0.separators_within(max_separators(size as nat)),
            strictly_sorted(root.entries()) ==> (r.0.shape(), !(r.1 is NotFound)) == shape_remove(root.shape(), encode_utf8(key@), size as nat),
            !(r.1 is NotFound) <==> has_key(reached_entries(root, encode_utf8(key@)), encode_utf8(key@)),
        decreases root,
    {
        let ghost k = encode_utf8(key@);
        let ghost strict_pre = root.wf(lo, hi, true) && strictly_sorted(root.entries());
        let ghost old_root = root;
        match root {
            Node::Leaf(leaf) => {
                let mut leaf = leaf;
                match find_index(key, &leaf.items) {
                    Some(p) => {
                        let ghost items = leaf.items@;
                        leaf.items.remove(p);
                        proof {
                            lemma_leaf_remove(items, p as int, lo, hi, false);
                            if old_root.wf(lo, hi, true) {
                                lemma_leaf_remove(items, p as int, lo, hi, true);
                            }
                            assert(items_entries(items)[p as int].0 == k);
                            assert(reached_entries(old_root, k)[p as int].0 == k);
                            if strictly_sorted(old_root.entries()) {
                                lemma_remove_leaf_shape(old_root, p as int, k, size as nat);
                            }
                        }
                        if is_root {
                            (Node::Leaf(leaf), RemoveResult::End)
                        } else {
                            (Node::Leaf(leaf), RemoveResult::Continue(RemoveContinue::Normal))
                        }
                    },
                    None => {
                        proof {
                            if strictly_sorted(old_root.entries()) {
                                lemma_remove_leaf_missing_shape(old_root, k, size as nat);
                            }
                        }
                        (Node::Leaf(leaf), RemoveResult::NotFound)
                    },
                }
            },
            Node::Index(ix) => {
                let mut ix = ix;
                let ghost old_ix = ix;
                let ghost keys = ix.keys@;
                let ghost nodes = ix.nodes@;
                let pos = child_position(&ix, key);
                let ghost clo = child_lo(keys, lo, pos as int);
                let ghost chi = child_hi(keys, hi, pos as int);
                let ghost pre = nodes_entries(nodes.subrange(0, pos as int));
                let ghost mid = nodes[pos as int].entries();
                let ghost post = nodes_entries(nodes.subrange(pos + 1, nodes.len() as int));
                proof {
                    assert(nodes[pos as int].wf(clo, chi, false));
                    lemma_nodes_entries_at(nodes, pos as int);
                    lemma_middle_of_run(pre, mid, post, k);
                    assert(all_filled(nodes, half_of(size as nat)));
                    assert(nodes[pos as int].filled(half_of(size as nat)));
                    lemma_filled_below(nodes[pos as int], half_of(size as nat));
                    assert(nodes[pos as int].balanced((d - 1) as nat));
                    lemma_child_pos(keys, k, pos as int);
                    if strictly_sorted(old_root.entries()) {
                        lemma_strictly_sorted_mid(pre, mid, post);
                    }
                }
                let child = ix.nodes.remove(pos);
                assert(child == nodes[pos as int]);
                let (c2, res) = BPlusTree::remove_inner(key, child, size, false, Ghost(clo), Ghost(chi), Ghost((d - 1) as nat));
                ix.nodes.insert(pos, c2);
                assert(all_balanced(ix.nodes@, (d - 1) as nat));
                proof {
                    assert(ix.nodes@ == nodes.update(pos as int, c2));
                    assert forall|i: int| #![trigger ix.nodes@[i]] 0 <= i < ix.nodes@.len() && i != pos
                        implies ix.nodes@[i].filled(half_of(size as nat)) by {
                        assert(ix.nodes@[i] == nodes[i]);
                    }
                    assert(filled_but_one(ix.nodes@, pos as int, half_of(size as nat)));
                    if strictly_sorted(old_root.entries()) {
                        lemma_remove_index_shape(old_root, keys, nodes, pos as int, k, size as nat, c2, !(res is NotFound));
                    }
                    if old_root.leaves_within(size as nat) {
                        assert(nodes[pos as int].leaves_within(size as nat));
                        assert(all_leaves_within(ix.nodes@, size as nat));
                    }
                    if old_root.separators_within(max_separators(size as nat)) {
                        assert(nodes[pos as int].separators_within(max_separators(size as nat)));
                        assert(all_separators_within(ix.nodes@, max_separators(size as nat)));
                    }
                }
                proof {
                    assert(ix.nodes@ =~= nodes.update(pos as int, c2));
                    lemma_index_replace_child(keys, nodes, pos as int, c2, lo, hi, false);
                    if old_root.wf(lo, hi, true) && (res is NotFound || strict_pre) {
                        lemma_index_replace_child(keys, nodes, pos as int, c2, lo, hi, true);
                    }
                }
                match res {
                    RemoveResult::NotFound => {
                        proof {
                            if old_root.wf(lo, hi, true) {
                                lemma_search_excludes(old_ix, lo, hi, pos as int, k);
                            }
                        }
                        proof {
                        assert(c2.filled(half_of(size as nat)));
                        assert(all_filled(ix.nodes@, half_of(size as nat)));
                    }
                    (Node::Index(ix), RemoveResult::NotFound)
                    },
                    _ => {
                        let ghost new_entries = nodes_entries(ix.nodes@);
                        proof {
                            let i = choose|i: int| 0 <= i < mid.len() && #[trigger] mid[i].0 == k && c2.entries() == mid.remove(i);
                            lemma_remove_middle(pre, mid, post, i);
                            assert(old_root.entries()[pre.len() + i].0 == k);
                            assert(new_entries == old_root.entries().remove(pre.len() + i));
                            if strict_pre {
                                lemma_strictly_sorted_remove(old_root.entries(), pre.len() + i);
                            }
                        }
                        let (ix2, cont) = rebalance(ix, pos, size, Ghost(lo), Ghost(hi), Ghost(strict_pre), Ghost((d - 1) as nat));
                        if is_root {
                            (Node::Index(ix2), RemoveResult::End)
                        } else {
                            (Node::Index(ix2), RemoveResult::Continue(cont))
                        }
                    },
                }
            },
        }
    }
}

} // verus!
