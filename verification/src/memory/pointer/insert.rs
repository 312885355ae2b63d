//! Inserting an item, splitting pages that grow past the order of the tree.
use vstd::prelude::*;
use crate::memory::pointer::BPlusTree;

use crate::key_order::{KeyOrder, lex_le, lex_lt, lemma_lex_lt_irreflexive, lemma_lex_le_transitive,
    lemma_lex_lt_total, lemma_lex_lt_asymmetric, lemma_lex_lt_transitive};
use crate::memory::pointer::node::{Entry, Node, IndexNode, LeafNode, Item, Populate, key_of, items_entries, nodes_entries, in_bounds, sep_in_bounds, sorted, strictly_sorted, child_lo, child_hi, index_wf, leaf_wf, keys_sorted, all_balanced, fill, half_of, all_filled, all_leaves_within, max_separators, all_separators_within};
use crate::memory::pointer::lemmas::{lo_le, hi_le, lemma_in_bounds_widen, lemma_items_entries_concat, lemma_nodes_entries_at, lemma_nodes_entries_concat, lemma_nodes_entries_one, lemma_nodes_entries_split, lemma_wf_children_prefix, lemma_wf_children_suffix};
use crate::memory::pointer::query::{compare_key, has_key, has_entry, child_position, reached_entries};
use crate::memory::pointer::laws::lemma_upper_bound_sorted;

use crate::memory::pointer::shape::{search_pos, lemma_search_pos, lemma_search_pos_props, outcome_shape, shape_insert, split_index_shape, key_seq, shapes, lemma_shapes_cut, lemma_child_pos, lemma_insert_index_kept, lemma_insert_index_split};

verus! {

/// The number of entries of `s` whose key is at most `k`: where an item
/// with key `k` goes into a run in key order, after the entries with equal keys.
pub open spec fn upper_bound(s: Seq<Entry>, k: Seq<u8>) -> nat
    decreases s.len(),
{
    if s.len() == 0 {
        0
    } else {
        upper_bound(s.drop_last(), k) + if lex_le(s.last().0, k) { 1nat } else { 0nat }
    }
}

/// `s` with `(k, v)` placed after every entry whose key is at most `k`.
pub open spec fn insert_entry(s: Seq<Entry>, k: Seq<u8>, v: Seq<char>) -> Seq<Entry> {
    s.insert(upper_bound(s, k) as int, (k, v))
}

pub proof fn lemma_upper_bound_concat(a: Seq<Entry>, b: Seq<Entry>, k: Seq<u8>)
    ensures
        upper_bound(a + b, k) == upper_bound(a, k) + upper_bound(b, k),
    decreases b.len(),
{
    if b.len() == 0 {
        assert(a + b =~= a);
    } else {
        assert((a + b).drop_last() =~= a + b.drop_last());
        assert((a + b).last() == b.last());
        lemma_upper_bound_concat(a, b.drop_last(), k);
    }
}

/// Where the entries at or below `k` come first, the upper bound is their number.
pub proof fn lemma_upper_bound_split(s: Seq<Entry>, k: Seq<u8>, p: int)
    requires
        0 <= p <= s.len(),
        forall|j: int| #![trigger s[j]] 0 <= j < p ==> lex_le(s[j].0, k),
        forall|j: int| #![trigger s[j]] p <= j < s.len() ==> lex_lt(k, s[j].0),
    ensures
        upper_bound(s, k) == p,
    decreases s.len(),
{
    if s.len() > 0 {
        let dl = s.drop_last();
        assert(s.last() == s[s.len() - 1]);
        if p == s.len() {
            lemma_upper_bound_split(dl, k, p - 1);
        } else {
            lemma_lex_lt_asymmetric(k, s.last().0);
            if s.last().0 == k {
                lemma_lex_lt_irreflexive(k);
            }
            lemma_upper_bound_split(dl, k, p);
        }
    }
}

/// Inserting into the middle run of three.
pub proof fn lemma_insert_middle(a: Seq<Entry>, b: Seq<Entry>, c: Seq<Entry>, p: int, x: Entry)
    requires
        0 <= p <= b.len(),
    ensures
        (a + b + c).insert(a.len() + p, x) == a + b.insert(p, x) + c,
{
    assert((a + b + c).insert(a.len() + p, x) =~= a + b.insert(p, x) + c);
}

/// An entry placed between the entries at or below it and those above keeps the run sorted.
pub proof fn lemma_sorted_insert(s: Seq<Entry>, p: int, e: Entry, strict: bool)
    requires
        0 <= p <= s.len(),
        if strict { strictly_sorted(s) } else { sorted(s) },
        forall|j: int| #![trigger s[j]] 0 <= j < p ==> if strict { lex_lt(s[j].0, e.0) } else { lex_le(s[j].0, e.0) },
        forall|j: int| #![trigger s[j]] p <= j < s.len() ==> lex_lt(e.0, s[j].0),
    ensures
        if strict { strictly_sorted(s.insert(p, e)) } else { sorted(s.insert(p, e)) },
{
    let t = s.insert(p, e);
    if strict {
        assert forall|i: int, j: int| 0 <= i < j < t.len() implies lex_lt(#[trigger] t[i].0, #[trigger] t[j].0) by {
            if i < p && j < p {
                assert(t[i] == s[i] && t[j] == s[j]);
            } else if i < p && j == p {
                assert(t[i] == s[i]);
            } else if i < p {
                assert(t[i] == s[i] && t[j] == s[j - 1]);
                lemma_lex_lt_transitive(s[i].0, e.0, s[j - 1].0);
            } else if i == p {
                assert(t[j] == s[j - 1]);
            } else {
                assert(t[i] == s[i - 1] && t[j] == s[j - 1]);
            }
        }
    } else {
        assert forall|i: int, j: int| 0 <= i < j < t.len() implies lex_le(#[trigger] t[i].0, #[trigger] t[j].0) by {
            if i < p && j < p {
                assert(t[i] == s[i] && t[j] == s[j]);
            } else if i < p && j == p {
                assert(t[i] == s[i]);
            } else if i < p {
                assert(t[i] == s[i] && t[j] == s[j - 1]);
                lemma_lex_le_transitive(s[i].0, e.0, s[j - 1].0);
            } else if i == p {
                assert(t[j] == s[j - 1]);
            } else {
                assert(t[i] == s[i - 1] && t[j] == s[j - 1]);
            }
        }
    }
}

/// Where the new item goes among the items of a leaf: before the first item
/// whose key is above `key`.
fn leaf_position(items: &Vec<Item>, key: &String) -> (pos: usize)
    ensures
        0 <= pos <= items@.len(),
        forall|j: int| 0 <= j < pos ==> lex_le(#[trigger] key_of(items@[j].key), key_of(*key)),
        pos < items@.len() ==> lex_lt(key_of(*key), key_of(items@[pos as int].key)),
{
    let mut i: usize = 0;
    while i < items.len()
        invariant
            0 <= i <= items@.len(),
            forall|j: int| 0 <= j < i ==> lex_le(#[trigger] key_of(items@[j].key), key_of(*key)),
        decreases items@.len() - i,
    {
        match compare_key(&items[i].key, key.as_str()) {
            KeyOrder::Greater => {
                proof {
                    lemma_lex_lt_total(key_of(items@[i as int].key), key_of(*key));
                }
                return i;
            },
            _ => {},
        }
        i = i + 1;
    }
    i
}

/// A page after an insertion: whole, or split in two.
pub enum InsertOutcome {
    Kept(Node),
    Split(Populate),
}

impl InsertOutcome {
    /// The entries of the page, or of both halves in order.
    pub open spec fn entries(self) -> Seq<Entry> {
        match self {
            InsertOutcome::Kept(n) => n.entries(),
            InsertOutcome::Split(p) => p.new_left_node.entries() + p.new_right_node.entries(),
        }
    }

    /// The page, or each half, has all its leaves `d` levels below it.
    pub open spec fn balanced(self, d: nat) -> bool {
        match self {
            InsertOutcome::Kept(n) => n.balanced(d),
            InsertOutcome::Split(p) => p.new_left_node.balanced(d) && p.new_right_node.balanced(d),
        }
    }

    /// The page, or each half, is filled.
    pub open spec fn filled(self, half: nat) -> bool {
        match self {
            InsertOutcome::Kept(n) => n.filled(half),
            InsertOutcome::Split(p) => p.new_left_node.filled(half) && p.new_right_node.filled(half),
        }
    }

    /// No leaf of the page, or of either half, holds more than `size` items.
    pub open spec fn leaves_within(self, size: nat) -> bool {
        match self {
            InsertOutcome::Kept(n) => n.leaves_within(size),
            InsertOutcome::Split(p) => p.new_left_node.leaves_within(size) && p.new_right_node.leaves_within(size),
        }
    }

    /// No index page of the page, or of either half, holds more than `b` separators.
    pub open spec fn separators_within(self, b: nat) -> bool {
        match self {
            InsertOutcome::Kept(n) => n.separators_within(b),
            InsertOutcome::Split(p) => p.new_left_node.separators_within(b) && p.new_right_node.separators_within(b),
        }
    }

    /// As a root: the page kept has its pages below filled and, if an index
    /// page, a separator; or both halves are filled.
    pub open spec fn filled_root(self, half: nat) -> bool {
        match self {
            InsertOutcome::Kept(n) => n.filled_below(half) && (n is Index ==> fill(n) >= 1),
            InsertOutcome::Split(p) => p.new_left_node.filled(half) && p.new_right_node.filled(half),
        }
    }

    /// The page, or each half on its side of the separator, is a search tree within the bounds.
    pub open spec fn wf(self, lo: Option<Seq<u8>>, hi: Option<Seq<u8>>, strict: bool) -> bool {
        match self {
            InsertOutcome::Kept(n) => n.wf(lo, hi, strict),
            InsertOutcome::Split(p) => {
                &&& sep_in_bounds(key_of(p.new_key), lo, hi)
                &&& p.new_left_node.wf(lo, Some(key_of(p.new_key)), strict)
                &&& p.new_right_node.wf(Some(key_of(p.new_key)), hi, strict)
            },
        }
    }
}

/// Facts about a leaf after an item has gone in at `pos`.
proof fn lemma_leaf_after_insert(items: Seq<Item>, pos: int, it: Item, lo: Option<Seq<u8>>, hi: Option<Seq<u8>>, strict: bool)
    requires
        0 <= pos <= items.len(),
        leaf_wf(items, lo, hi, strict),
        in_bounds(key_of(it.key), lo, hi, true),
        forall|j: int| 0 <= j < pos ==> lex_le(#[trigger] key_of(items[j].key), key_of(it.key)),
        pos < items.len() ==> lex_lt(key_of(it.key), key_of(items[pos].key)),
        strict ==> strictly_sorted(items_entries(items)) && !has_key(items_entries(items), key_of(it.key)),
    ensures
        items_entries(items.insert(pos, it)) == insert_entry(items_entries(items), key_of(it.key), it.value@),
        leaf_wf(items.insert(pos, it), lo, hi, strict),
        strict ==> strictly_sorted(items_entries(items.insert(pos, it))),
{
    let s = items_entries(items);
    let e = it.entry();
    let k = key_of(it.key);
    assert forall|j: int| #![trigger s[j]] pos <= j < s.len() implies lex_lt(k, s[j].0) by {
        assert(s[j].0 == key_of(items[j].key));
        assert(s[pos].0 == key_of(items[pos].key));
        if j > pos {
            assert(lex_le(s[pos].0, s[j].0));
        }
        lemma_lex_le_transitive(k, s[pos].0, s[j].0);
    }
    assert forall|j: int| #![trigger s[j]] 0 <= j < pos implies lex_le(s[j].0, k) by {
        assert(s[j].0 == key_of(items[j].key));
    }
    lemma_upper_bound_split(s, k, pos);
    assert(items_entries(items.insert(pos, it)) =~= s.insert(pos, e));
    lemma_sorted_insert(s, pos, e, false);
    if strict {
        assert forall|j: int| #![trigger s[j]] 0 <= j < pos implies lex_lt(s[j].0, k) by {
            assert(s[j].0 == key_of(items[j].key));
            if s[j].0 == k {
                assert(has_key(s, k));
            }
        }
        lemma_sorted_insert(s, pos, e, true);
    }
    let t = s.insert(pos, e);
    assert forall|j: int| 0 <= j < t.len() implies in_bounds(#[trigger] t[j].0, lo, hi, strict) by {
        if j < pos {
            assert(t[j] == s[j]);
        } else if j == pos {
            assert(t[j] == e);
        } else {
            assert(t[j] == s[j - 1]);
        }
    }
}

/// Facts about the two halves of a leaf split at `m`.
proof fn lemma_leaf_split(items: Seq<Item>, m: int, lo: Option<Seq<u8>>, hi: Option<Seq<u8>>, strict: bool)
    requires
        0 < m < items.len(),
        leaf_wf(items, lo, hi, strict),
        strict ==> strictly_sorted(items_entries(items)),
    ensures
        sep_in_bounds(key_of(items[m].key), lo, hi),
        leaf_wf(items.subrange(0, m), lo, Some(key_of(items[m].key)), strict),
        leaf_wf(items.subrange(m, items.len() as int), Some(key_of(items[m].key)), hi, strict),
        items_entries(items.subrange(0, m)) + items_entries(items.subrange(m, items.len() as int)) == items_entries(items),
{
    let s = items_entries(items);
    let sep = key_of(items[m].key);
    assert(s[m].0 == sep);
    assert(in_bounds(s[m].0, lo, hi, strict));
    let l = items_entries(items.subrange(0, m));
    let r = items_entries(items.subrange(m, items.len() as int));
    assert(l =~= s.subrange(0, m));
    assert(r =~= s.subrange(m, s.len() as int));
    assert forall|i: int| 0 <= i < l.len() implies in_bounds(#[trigger] l[i].0, lo, Some(sep), strict) by {
        assert(l[i] == s[i]);
        assert(in_bounds(s[i].0, lo, hi, strict));
    }
    assert forall|i: int| 0 <= i < r.len() implies in_bounds(#[trigger] r[i].0, Some(sep), hi, strict) by {
        assert(r[i] == s[m + i]);
        assert(in_bounds(s[m + i].0, lo, hi, strict));
    }
    assert forall|i: int, j: int| 0 <= i < j < l.len() implies lex_le(#[trigger] l[i].0, #[trigger] l[j].0) by {
        assert(l[i] == s[i] && l[j] == s[j]);
    }
    assert forall|i: int, j: int| 0 <= i < j < r.len() implies lex_le(#[trigger] r[i].0, #[trigger] r[j].0) by {
        assert(r[i] == s[m + i] && r[j] == s[m + j]);
    }
    lemma_items_entries_concat(items.subrange(0, m), items.subrange(m, items.len() as int));
    assert(items.subrange(0, m) + items.subrange(m, items.len() as int) =~= items);
}

/// A child replaced by one within the same bounds keeps the page a search tree.
pub proof fn lemma_index_replace_child(keys: Seq<String>, nodes: Seq<Node>, pos: int, c: Node,
    lo: Option<Seq<u8>>, hi: Option<Seq<u8>>, strict: bool)
    requires
        index_wf(keys, nodes, lo, hi, strict),
        0 <= pos < nodes.len(),
        c.wf(child_lo(keys, lo, pos), child_hi(keys, hi, pos), strict),
    ensures
        index_wf(keys, nodes.update(pos, c), lo, hi, strict),
        nodes_entries(nodes.update(pos, c)) == nodes_entries(nodes.subrange(0, pos)) + c.entries()
            + nodes_entries(nodes.subrange(pos + 1, nodes.len() as int)),
{
    let t = nodes.update(pos, c);
    assert forall|i: int| #![trigger t[i]] 0 <= i < t.len() implies t[i].wf(child_lo(keys, lo, i), child_hi(keys, hi, i), strict) by {
        if i != pos {
            assert(t[i] == nodes[i]);
        }
    }
    lemma_nodes_entries_at(t, pos);
    assert(t.subrange(0, pos) =~= nodes.subrange(0, pos));
    assert(t.subrange(pos + 1, t.len() as int) =~= nodes.subrange(pos + 1, nodes.len() as int));
}

/// A child replaced by the two halves of its split, with the separator
/// between them, keeps the page a search tree.
pub proof fn lemma_index_split_child(keys: Seq<String>, nodes: Seq<Node>, pos: int, sep: String, l: Node, r: Node,
    lo: Option<Seq<u8>>, hi: Option<Seq<u8>>, strict: bool)
    requires
        index_wf(keys, nodes, lo, hi, strict),
        0 <= pos < nodes.len(),
        sep_in_bounds(key_of(sep), child_lo(keys, lo, pos), child_hi(keys, hi, pos)),
        l.wf(child_lo(keys, lo, pos), Some(key_of(sep)), strict),
        r.wf(Some(key_of(sep)), child_hi(keys, hi, pos), strict),
    ensures
        index_wf(keys.insert(pos, sep), nodes.update(pos, l).insert(pos + 1, r), lo, hi, strict),
        nodes_entries(nodes.update(pos, l).insert(pos + 1, r)) == nodes_entries(nodes.subrange(0, pos))
            + (l.entries() + r.entries()) + nodes_entries(nodes.subrange(pos + 1, nodes.len() as int)),
{
    let k2 = keys.insert(pos, sep);
    let t = nodes.update(pos, l).insert(pos + 1, r);
    let ks = key_of(sep);
    // separators stay sorted and within bounds
    assert forall|i: int, j: int| 0 <= i < j < k2.len() implies lex_le(#[trigger] key_of(k2[i]), #[trigger] key_of(k2[j])) by {
        if i < pos && j < pos {
            assert(k2[i] == keys[i] && k2[j] == keys[j]);
        } else if i < pos && j == pos {
            assert(k2[i] == keys[i]);
            assert(child_lo(keys, lo, pos) == Some(key_of(keys[pos - 1])));
            if i < pos - 1 {
                assert(lex_le(key_of(keys[i]), key_of(keys[pos - 1])));
            }
            lemma_lex_le_transitive(key_of(keys[i]), key_of(keys[pos - 1]), ks);
        } else if i < pos {
            assert(k2[i] == keys[i] && k2[j] == keys[j - 1]);
        } else if i == pos {
            assert(k2[j] == keys[j - 1]);
            assert(child_hi(keys, hi, pos) == Some(key_of(keys[pos])));
            if j - 1 > pos {
                assert(lex_le(key_of(keys[pos]), key_of(keys[j - 1])));
            }
            lemma_lex_le_transitive(ks, key_of(keys[pos]), key_of(keys[j - 1]));
        } else {
            assert(k2[i] == keys[i - 1] && k2[j] == keys[j - 1]);
        }
    }
    assert forall|i: int| #![trigger k2[i]] 0 <= i < k2.len() implies sep_in_bounds(key_of(k2[i]), lo, hi) by {
        if i < pos {
            assert(k2[i] == keys[i]);
        } else if i == pos {
            if pos > 0 {
                assert(sep_in_bounds(key_of(keys[pos - 1]), lo, hi));
            }
            if pos < keys.len() {
                assert(sep_in_bounds(key_of(keys[pos]), lo, hi));
            }
            assert(lo_le(lo, child_lo(keys, lo, pos)));
            assert(hi_le(child_hi(keys, hi, pos), hi));
            lemma_in_bounds_widen(ks, child_lo(keys, lo, pos), child_hi(keys, hi, pos), lo, hi, false);
        } else {
            assert(k2[i] == keys[i - 1]);
        }
    }
    assert forall|i: int| #![trigger t[i]] 0 <= i < t.len() implies t[i].wf(child_lo(k2, lo, i), child_hi(k2, hi, i), strict) by {
        if i < pos {
            assert(t[i] == nodes[i]);
            assert(child_lo(k2, lo, i) == child_lo(keys, lo, i));
            assert(child_hi(k2, hi, i) == child_hi(keys, hi, i));
        } else if i == pos {
            assert(t[i] == l);
            assert(child_lo(k2, lo, i) == child_lo(keys, lo, i));
        } else if i == pos + 1 {
            assert(t[i] == r);
            assert(child_hi(k2, hi, i) == child_hi(keys, hi, pos));
        } else {
            assert(t[i] == nodes[i - 1]);
            assert(child_lo(k2, lo, i) == child_lo(keys, lo, i - 1));
            assert(child_hi(k2, hi, i) == child_hi(keys, hi, i - 1));
        }
    }
    // entries
    assert(t =~= nodes.subrange(0, pos) + (seq![l] + seq![r]) + nodes.subrange(pos + 1, nodes.len() as int));
    lemma_nodes_entries_concat(nodes.subrange(0, pos) + (seq![l] + seq![r]), nodes.subrange(pos + 1, nodes.len() as int));
    lemma_nodes_entries_concat(nodes.subrange(0, pos), seq![l] + seq![r]);
    lemma_nodes_entries_concat(seq![l], seq![r]);
    lemma_nodes_entries_one(l);
    lemma_nodes_entries_one(r);
}

/// Splitting an index page around its `kd`-th separator gives two search trees.
pub proof fn lemma_index_split(keys: Seq<String>, nodes: Seq<Node>, kd: int,
    lo: Option<Seq<u8>>, hi: Option<Seq<u8>>, strict: bool)
    requires
        index_wf(keys, nodes, lo, hi, strict),
        0 <= kd < keys.len(),
    ensures
        sep_in_bounds(key_of(keys[kd]), lo, hi),
        index_wf(keys.subrange(0, kd), nodes.subrange(0, kd + 1), lo, Some(key_of(keys[kd])), strict),
        index_wf(keys.subrange(kd + 1, keys.len() as int), nodes.subrange(kd + 1, nodes.len() as int),
            Some(key_of(keys[kd])), hi, strict),
        nodes_entries(nodes.subrange(0, kd + 1)) + nodes_entries(nodes.subrange(kd + 1, nodes.len() as int))
            == nodes_entries(nodes),
{
    let m = Some(key_of(keys[kd]));
    let lk = keys.subrange(0, kd);
    let ln = nodes.subrange(0, kd + 1);
    let rk = keys.subrange(kd + 1, keys.len() as int);
    let rn = nodes.subrange(kd + 1, nodes.len() as int);
    assert forall|i: int, j: int| 0 <= i < j < lk.len() implies lex_le(#[trigger] key_of(lk[i]), #[trigger] key_of(lk[j])) by {
        assert(lk[i] == keys[i] && lk[j] == keys[j]);
    }
    assert forall|i: int| #![trigger lk[i]] 0 <= i < lk.len() implies sep_in_bounds(key_of(lk[i]), lo, m) by {
        assert(lk[i] == keys[i]);
        assert(sep_in_bounds(key_of(keys[i]), lo, hi));
    }
    assert forall|i: int| #![trigger ln[i]] 0 <= i < ln.len() implies ln[i].wf(child_lo(lk, lo, i), child_hi(lk, m, i), strict) by {
        assert(ln[i] == nodes[i]);
        assert(child_lo(lk, lo, i) == child_lo(keys, lo, i));
        assert(child_hi(lk, m, i) == child_hi(keys, hi, i));
    }
    assert forall|i: int, j: int| 0 <= i < j < rk.len() implies lex_le(#[trigger] key_of(rk[i]), #[trigger] key_of(rk[j])) by {
        assert(rk[i] == keys[kd + 1 + i] && rk[j] == keys[kd + 1 + j]);
    }
    assert forall|i: int| #![trigger rk[i]] 0 <= i < rk.len() implies sep_in_bounds(key_of(rk[i]), m, hi) by {
        assert(rk[i] == keys[kd + 1 + i]);
        assert(sep_in_bounds(key_of(keys[kd + 1 + i]), lo, hi));
    }
    assert forall|i: int| #![trigger rn[i]] 0 <= i < rn.len() implies rn[i].wf(child_lo(rk, m, i), child_hi(rk, hi, i), strict) by {
        assert(rn[i] == nodes[kd + 1 + i]);
        assert(child_lo(rk, m, i) == child_lo(keys, lo, kd + 1 + i));
        assert(child_hi(rk, hi, i) == child_hi(keys, hi, kd + 1 + i));
    }
    lemma_nodes_entries_split(nodes, kd + 1);
}

/// A contiguous part of a run without repeated keys has none either, and
/// holds no key the run does not.
pub proof fn lemma_middle_of_run(a: Seq<Entry>, b: Seq<Entry>, c: Seq<Entry>, k: Seq<u8>)
    ensures
        strictly_sorted(a + b + c) ==> strictly_sorted(b),
        !has_key(a + b + c, k) ==> !has_key(b, k),
{
    let s = a + b + c;
    if strictly_sorted(s) {
        assert forall|i: int, j: int| 0 <= i < j < b.len() implies lex_lt(#[trigger] b[i].0, #[trigger] b[j].0) by {
            assert(b[i] == s[a.len() + i] && b[j] == s[a.len() + j]);
        }
    }
    if has_key(b, k) {
        let i = choose|i: int| 0 <= i < b.len() && #[trigger] b[i].0 == k;
        assert(s[a.len() + i] == b[i]);
    }
}

pub proof fn lemma_upper_bound_le_len(s: Seq<Entry>, k: Seq<u8>)
    ensures
        upper_bound(s, k) <= s.len(),
    decreases s.len(),
{
    if s.len() > 0 {
        lemma_upper_bound_le_len(s.drop_last(), k);
    }
}

/// What holds when an insertion descends into the `pos`-th child of an index
/// page: the key lies within the child's bounds, and inserting into the
/// page's entries is inserting into the child's.
proof fn lemma_index_descend(ix: IndexNode, lo: Option<Seq<u8>>, hi: Option<Seq<u8>>, pos: int, k: Seq<u8>, v: Seq<char>)
    requires
        Node::Index(ix).wf(lo, hi, false),
        in_bounds(k, lo, hi, true),
        0 <= pos <= ix.keys@.len(),
        forall|j: int| 0 <= j < pos ==> lex_le(#[trigger] key_of(ix.keys@[j]), k),
        pos < ix.keys@.len() ==> lex_lt(k, key_of(ix.keys@[pos])),
    ensures
        ix.nodes@[pos].wf(child_lo(ix.keys@, lo, pos), child_hi(ix.keys@, hi, pos), false),
        in_bounds(k, child_lo(ix.keys@, lo, pos), child_hi(ix.keys@, hi, pos), true),
        ({
            let pre = nodes_entries(ix.nodes@.subrange(0, pos));
            let mid = ix.nodes@[pos].entries();
            let post = nodes_entries(ix.nodes@.subrange(pos + 1, ix.nodes@.len() as int));
            &&& Node::Index(ix).entries() == pre + mid + post
            &&& insert_entry(Node::Index(ix).entries(), k, v) == pre + insert_entry(mid, k, v) + post
            &&& (strictly_sorted(Node::Index(ix).entries()) ==> strictly_sorted(mid))
            &&& (!has_key(Node::Index(ix).entries(), k) ==> !has_key(mid, k))
        }),
{
    let old_root = Node::Index(ix);
    let keys = ix.keys@;
    let nodes = ix.nodes@;
    let pre = nodes_entries(nodes.subrange(0, pos));
    let mid = nodes[pos].entries();
    let post = nodes_entries(nodes.subrange(pos + 1, nodes.len() as int));
    assert(nodes[pos].wf(child_lo(keys, lo, pos), child_hi(keys, hi, pos), false));
    if pos > 0 {
        assert(lex_le(key_of(keys[pos - 1]), k));
    }
    lemma_nodes_entries_at(nodes, pos);
    if pos > 0 {
        lemma_wf_children_prefix(old_root, ix, lo, hi, false, pos);
        assert forall|j: int| #![trigger pre[j]] 0 <= j < pre.len() implies lex_le(pre[j].0, k) by {
            assert(in_bounds(pre[j].0, lo, Some(key_of(keys[pos - 1])), false));
            lemma_lex_le_transitive(pre[j].0, key_of(keys[pos - 1]), k);
        }
    } else {
        assert(nodes.subrange(0, 0) =~= Seq::<Node>::empty());
        assert(pre.len() == 0);
    }
    lemma_upper_bound_split(pre, k, pre.len() as int);
    if pos < keys.len() {
        lemma_wf_children_suffix(old_root, ix, lo, hi, false, pos);
        assert forall|j: int| #![trigger post[j]] 0 <= j < post.len() implies lex_lt(k, post[j].0) by {
            assert(in_bounds(post[j].0, Some(key_of(keys[pos])), hi, false));
            lemma_lex_le_transitive(k, key_of(keys[pos]), post[j].0);
        }
    } else {
        assert(nodes.subrange(pos + 1, nodes.len() as int) =~= Seq::<Node>::empty());
        assert(post.len() == 0);
    }
    lemma_upper_bound_split(post, k, 0);
    lemma_upper_bound_concat(pre, mid, k);
    lemma_upper_bound_concat(pre + mid, post, k);
    lemma_upper_bound_le_len(mid, k);
    lemma_insert_middle(pre, mid, post, upper_bound(mid, k) as int, (k, v));
    lemma_middle_of_run(pre, mid, post, k);
}

/// The entry `(k, v)` lies in the leaf that a search for `k` reaches: below
/// the page kept, or below the half on `k`'s side of the separator handed up.
pub open spec fn outcome_reaches(r: InsertOutcome, k: Seq<u8>, v: Seq<char>) -> bool {
    match r {
        InsertOutcome::Kept(n) => has_entry(reached_entries(n, k), k, v),
        InsertOutcome::Split(p) => if lex_lt(k, key_of(p.new_key)) {
            has_entry(reached_entries(p.new_left_node, k), k, v)
        } else {
            has_entry(reached_entries(p.new_right_node, k), k, v)
        },
    }
}

/// In a sorted leaf, the inserted entry lies before the `m`-th item of the
/// result exactly when its key is below that item's.
proof fn lemma_leaf_reach(es: Seq<Entry>, k: Seq<u8>, v: Seq<char>, m: int)
    requires
        sorted(es),
        0 < m <= es.len(),
    ensures
        ({
            let full = insert_entry(es, k, v);
            &&& has_entry(full, k, v)
            &&& lex_lt(k, full[m].0) ==> has_entry(full.take(m), k, v)
            &&& !lex_lt(k, full[m].0) ==> has_entry(full.skip(m), k, v)
        }),
{
    lemma_upper_bound_sorted(es, k);
    let ub = upper_bound(es, k) as int;
    let full = insert_entry(es, k, v);
    assert(full[ub] == (k, v));
    if ub < m {
        assert(full.take(m)[ub] == (k, v));
        assert(full[m] == es[m - 1]);
    } else {
        assert(full.skip(m)[ub - m] == (k, v));
        lemma_lex_lt_irreflexive(k);
        if m < ub {
            assert(full[m] == es[m]);
            assert(lex_le(es[m].0, k));
            crate::key_order::lemma_lex_lt_asymmetric(es[m].0, k);
        }
    }
}

/// Inserts into a leaf, splitting it in two halves once it holds more than `size` items.
fn insert_leaf(key: String, value: String, leaf: LeafNode, size: usize,
    Ghost(lo): Ghost<Option<Seq<u8>>>, Ghost(hi): Ghost<Option<Seq<u8>>>) -> (r: InsertOutcome)
    requires
        size >= 2,
        leaf_wf(leaf.items@, lo, hi, false),
        in_bounds(key_of(key), lo, hi, true),
    ensures
        r.entries() == insert_entry(items_entries(leaf.items@), key_of(key), value@),
        r.wf(lo, hi, false),
        leaf_wf(leaf.items@, lo, hi, true) && strictly_sorted(items_entries(leaf.items@))
            && !has_key(items_entries(leaf.items@), key_of(key)) ==> r.wf(lo, hi, true),
        r.balanced(0),
        r.filled_root(half_of(size as nat)),
        leaf.items@.len() >= half_of(size as nat) ==> r.filled(half_of(size as nat)),
        leaf.items@.len() <= size ==> r.leaves_within(size as nat),
        leaf.items@.len() + 1 <= size ==> r matches InsertOutcome::Kept(Node::Leaf(_)),
        leaf.items@.len() + 1 > size ==> {
            &&& r matches InsertOutcome::Split(p)
            &&& p.new_left_node matches Node::Leaf(l)
            &&& p.new_right_node matches Node::Leaf(rr)
            &&& l.items@.len() == size / 2 + 1
            &&& rr.items@.len() > 0
            &&& p.new_key@ == rr.items@[0].key@
        },
        outcome_shape(r) == shape_insert(Node::Leaf(leaf).shape(), key_of(key), value@, size as nat),
        outcome_reaches(r, key_of(key), value@),
{
    let ghost gk = key_of(key);
    let ghost gv = value@;
    let ghost strict_pre = leaf_wf(leaf.items@, lo, hi, true) && strictly_sorted(items_entries(leaf.items@))
        && !has_key(items_entries(leaf.items@), key_of(key));
    proof {
        reveal(shape_insert);
    }
    let mut leaf = leaf;
    let pos = leaf_position(&leaf.items, &key);
    let ghost old_items = leaf.items@;
    let it = Item::new(key, value);
    let ghost git = it;
    leaf.items.insert(pos, it);
    proof {
        lemma_leaf_after_insert(old_items, pos as int, git, lo, hi, false);
        if strict_pre {
            lemma_leaf_after_insert(old_items, pos as int, git, lo, hi, true);
        }
        assert(leaf.items@ == old_items.insert(pos as int, git));
    }
    if leaf.items.len() > size {
        let m = size / 2 + 1;
        let new_key = leaf.items[m].key.clone();
        let ghost full = leaf.items@;
        let right = leaf.items.split_off(m);
        proof {
            assert(leaf.items@.len() == m);
            assert(right@.len() == full.len() - m);
            lemma_leaf_split(full, m as int, lo, hi, false);
            if strict_pre {
                lemma_leaf_split(full, m as int, lo, hi, true);
            }
            assert(items_entries(leaf.items@) =~= items_entries(full).take(m as int));
            assert(items_entries(right@) =~= items_entries(full).skip(m as int));
            assert(key_of(new_key) == items_entries(full)[m as int].0);
            assert(items_entries(full) == insert_entry(items_entries(old_items), gk, gv));
            lemma_leaf_reach(items_entries(old_items), gk, gv, m as int);
        }
        InsertOutcome::Split(Populate {
            new_key,
            new_left_node: Node::Leaf(leaf),
            new_right_node: Node::Leaf(LeafNode { items: right }),
        })
    } else {
        proof {
            assert(items_entries(leaf.items@) == insert_entry(items_entries(old_items), gk, gv));
            lemma_upper_bound_sorted(items_entries(old_items), gk);
            let ub = upper_bound(items_entries(old_items), gk) as int;
            assert(items_entries(leaf.items@)[ub] == (gk, gv));
        }
        InsertOutcome::Kept(Node::Leaf(leaf))
    }
}

/// Splitting an index page with sorted separators around its `kd`-th
/// separator: a search for `k` goes to the half on `k`'s side of it and there
/// reaches the child it reached before.
proof fn lemma_index_split_reach(keys: Seq<String>, k: Seq<u8>, kd: int)
    requires
        keys_sorted(keys),
        0 <= kd < keys.len(),
    ensures
        ({
            let q = search_pos(key_seq(keys), k);
            &&& lex_lt(k, key_of(keys[kd])) ==> q <= kd && search_pos(key_seq(keys.take(kd)), k) == q
            &&& !lex_lt(k, key_of(keys[kd])) ==> kd < q && search_pos(key_seq(keys.skip(kd + 1)), k) == q - kd - 1
        }),
{
    let ks = key_seq(keys);
    let q = search_pos(ks, k);
    lemma_search_pos_props(ks, k);
    assert(forall|j: int| 0 <= j < keys.len() ==> #[trigger] ks[j] == key_of(keys[j]));
    if lex_lt(k, key_of(keys[kd])) {
        if q > kd {
            assert(lex_le(ks[kd], k));
            lemma_lex_lt_asymmetric(k, ks[kd]);
            lemma_lex_lt_irreflexive(k);
        }
        let t = key_seq(keys.take(kd));
        assert(t =~= ks.take(kd));
        lemma_search_pos(t, k, q);
    } else {
        if q <= kd {
            assert(q < ks.len());
            assert(lex_lt(k, ks[q]));
            if q < kd {
                assert(lex_le(key_of(keys[q]), key_of(keys[kd])));
                if ks[q] != ks[kd] {
                    lemma_lex_lt_transitive(k, ks[q], ks[kd]);
                }
            }
        }
        let t = key_seq(keys.skip(kd + 1));
        assert(t =~= ks.skip(kd + 1));
        assert forall|j: int| 0 <= j < q - kd - 1 implies lex_le(#[trigger] t[j], k) by {
            assert(t[j] == ks[j + kd + 1]);
        }
        if q - kd - 1 < t.len() {
            assert(t[q - kd - 1] == ks[q]);
        }
        lemma_search_pos(t, k, q - kd - 1);
    }
}

/// Splits an index page around its middle separator once it holds more than `size` separators.
#[verifier::spinoff_prover]
#[verifier::rlimit(40)]
fn split_index_if_full(ix: IndexNode, size: usize,
    Ghost(lo): Ghost<Option<Seq<u8>>>, Ghost(hi): Ghost<Option<Seq<u8>>>, Ghost(strict): Ghost<bool>,
    Ghost(d): Ghost<nat>, Ghost(k): Ghost<Seq<u8>>, Ghost(v): Ghost<Seq<char>>) -> (r: InsertOutcome)
    requires
        size >= 2,
        index_wf(ix.keys@, ix.nodes@, lo, hi, false),
        strict ==> index_wf(ix.keys@, ix.nodes@, lo, hi, true),
    ensures
        r.entries() == nodes_entries(ix.nodes@),
        r.wf(lo, hi, false),
        strict ==> r.wf(lo, hi, true),
        all_balanced(ix.nodes@, d) ==> r.balanced(d + 1),
        all_filled(ix.nodes@, half_of(size as nat)) && ix.keys@.len() >= 1 ==> r.filled(half_of(size as nat)),
        all_leaves_within(ix.nodes@, size as nat) ==> r.leaves_within(size as nat),
        all_separators_within(ix.nodes@, max_separators(size as nat)) && ix.keys@.len() <= max_separators(size as nat) + 1
            ==> r.separators_within(max_separators(size as nat)),
        all_separators_within(ix.nodes@, size as nat) && ix.keys@.len() <= size + 1
            ==> r.separators_within(size as nat),
        ix.keys@.len() <= size ==> r == InsertOutcome::Kept(Node::Index(ix)),
        ix.keys@.len() > size ==> {
            let kd = (ix.keys@.len() / 2) as int;
            &&& r matches InsertOutcome::Split(p)
            &&& p.new_left_node matches Node::Index(a)
            &&& p.new_right_node matches Node::Index(b)
            &&& a.keys@ == ix.keys@.take(kd)
            &&& a.nodes@ == ix.nodes@.take(kd + 1)
            &&& p.new_key == ix.keys@[kd]
            &&& b.keys@ == ix.keys@.skip(kd + 1)
            &&& b.nodes@ == ix.nodes@.skip(kd + 1)
        },
        outcome_shape(r) == split_index_shape(key_seq(ix.keys@), shapes(ix.nodes@), size as nat),
        has_entry(reached_entries(Node::Index(ix), k), k, v) ==> outcome_reaches(r, k, v),
{
    let ghost b = max_separators(size as nat);
    let ghost old_node = Node::Index(ix);
    let mut ix = ix;
    if ix.keys.len() > size {
        let ghost keys2 = ix.keys@;
        let ghost nodes2 = ix.nodes@;
        let kd = ix.keys.len() / 2;
        let right_nodes = ix.nodes.split_off(kd + 1);
        let mut right_keys = ix.keys.split_off(kd);
        let new_key = right_keys.remove(0);
        proof {
            assert(right_keys@ =~= keys2.subrange(kd + 1, keys2.len() as int));
            assert(new_key == keys2[kd as int]);
            lemma_index_split(keys2, nodes2, kd as int, lo, hi, false);
            if strict {
                lemma_index_split(keys2, nodes2, kd as int, lo, hi, true);
            }
            if all_balanced(nodes2, d) {
                assert(all_balanced(ix.nodes@, d));
                assert(all_balanced(right_nodes@, d));
            }
            if all_filled(nodes2, half_of(size as nat)) {
                assert(all_filled(ix.nodes@, half_of(size as nat)));
                assert(all_filled(right_nodes@, half_of(size as nat)));
            }
            if all_leaves_within(nodes2, size as nat) {
                assert(all_leaves_within(ix.nodes@, size as nat));
                assert(all_leaves_within(right_nodes@, size as nat));
            }
            lemma_shapes_cut(nodes2, kd + 1);
            assert(key_seq(ix.keys@) =~= key_seq(keys2).take(kd as int));
            assert(key_seq(right_keys@) =~= key_seq(keys2).skip(kd + 1));
            if all_separators_within(nodes2, size as nat) && keys2.len() <= size + 1 {
                assert(all_separators_within(ix.nodes@, size as nat));
                assert(all_separators_within(right_nodes@, size as nat));
            }
            if has_entry(reached_entries(old_node, k), k, v) {
                lemma_index_split_reach(keys2, k, kd as int);
                lemma_search_pos_props(key_seq(keys2), k);
                let q = search_pos(key_seq(keys2), k);
                assert(ix.keys@ == keys2.take(kd as int));
                assert(right_keys@ == keys2.skip(kd + 1));
                if lex_lt(k, key_of(new_key)) {
                    assert(ix.nodes@[q] == nodes2[q]);
                } else {
                    assert(right_nodes@[q - kd - 1] == nodes2[q]);
                }
            }
            if all_separators_within(nodes2, b) && keys2.len() <= b + 1 {
                assert(all_separators_within(ix.nodes@, b));
                assert(all_separators_within(right_nodes@, b));
                assert(ix.keys@.len() <= b);
                assert(right_keys@.len() <= b);
            }
        }
        InsertOutcome::Split(Populate {
            new_key,
            new_left_node: Node::Index(ix),
            new_right_node: Node::Index(IndexNode { keys: right_keys, nodes: right_nodes }),
        })
    } else {
        InsertOutcome::Kept(Node::Index(ix))
    }
}

impl BPlusTree {
    /// Inserts `key` with `value` below `root`, whose entries lie within `lo`
    /// and `hi`. A page that grows past `size` separators or items is split and
    /// handed back in two halves.
    #[verifier::spinoff_prover]
    #[verifier::rlimit(60)]
    pub fn insert_inner(key: String, value: String, root: Node, size: usize,
        Ghost(lo): Ghost<Option<Seq<u8>>>, Ghost(hi): Ghost<Option<Seq<u8>>>, Ghost(d): Ghost<nat>) -> (r: InsertOutcome)
        requires
            size >= 2,
            root.wf(lo, hi, false),
            in_bounds(key_of(key), lo, hi, true),
        ensures
            r.entries() == insert_entry(root.entries(), key_of(key), value@),
            r.wf(lo, hi, false),
            root.wf(lo, hi, true) && strictly_sorted(root.entries()) && !has_key(root.entries(), key_of(key))
                ==> r.wf(lo, hi, true),
            root.balanced(d) ==> r.balanced(d),
            root.filled(half_of(size as nat)) ==> r.filled(half_of(size as nat)),
            root.filled_below(half_of(size as nat)) && (root is Index ==> fill(root) >= 1)
                ==> r.filled_root(half_of(size as nat)),
            root.leaves_within(size as nat) ==> r.leaves_within(size as nat),
            root.separators_within(max_separators(size as nat)) ==> r.separators_within(max_separators(size as nat)),
            root.separators_within(size as nat) ==> r.separators_within(size as nat),
            outcome_shape(r) == shape_insert(root.shape(), key_of(key), value@, size as nat),
            outcome_reaches(r, key_of(key), value@),
        decreases root,
    {
        let ghost k = key_of(key);
        let ghost v = value@;
        let ghost strict_pre = root.wf(lo, hi, true) && strictly_sorted(root.entries()) && !has_key(root.entries(), k);
        let ghost old_root = root;
        match root {
            Node::Leaf(leaf) => insert_leaf(key, value, leaf, size, Ghost(lo), Ghost(hi)),
            Node::Index(ix) => {
                let mut ix = ix;
                let pos = child_position(&ix, key.as_str());
                let ghost keys = ix.keys@;
                let ghost nodes = ix.nodes@;
                let ghost clo = child_lo(keys, lo, pos as int);
                let ghost chi = child_hi(keys, hi, pos as int);
                proof {
                    lemma_index_descend(ix, lo, hi, pos as int, k, v);
                    lemma_child_pos(keys, k, pos as int);
                }
                let child = ix.nodes.remove(pos);
                assert(child == nodes[pos as int]);
                let r = BPlusTree::insert_inner(key, value, child, size, Ghost(clo), Ghost(chi), Ghost((d - 1) as nat));
                match r {
                    InsertOutcome::Kept(c) => {
                        ix.nodes.insert(pos, c);
                        proof {
                            assert(ix.nodes@ =~= nodes.update(pos as int, c));
                            lemma_index_replace_child(keys, nodes, pos as int, c, lo, hi, false);
                            if strict_pre {
                                lemma_index_replace_child(keys, nodes, pos as int, c, lo, hi, true);
                            }
                            if old_root.balanced(d) {
                                assert(nodes[pos as int].balanced((d - 1) as nat));
                                assert(all_balanced(ix.nodes@, (d - 1) as nat));
                            }
                            if old_root.filled_below(half_of(size as nat)) {
                                assert(nodes[pos as int].filled(half_of(size as nat)));
                                assert(all_filled(ix.nodes@, half_of(size as nat)));
                            }
                            if old_root.leaves_within(size as nat) {
                                assert(nodes[pos as int].leaves_within(size as nat));
                                assert(all_leaves_within(ix.nodes@, size as nat));
                            }
                            if old_root.separators_within(max_separators(size as nat)) {
                                assert(nodes[pos as int].separators_within(max_separators(size as nat)));
                                assert(all_separators_within(ix.nodes@, max_separators(size as nat)));
                            }
                            if old_root.separators_within(size as nat) {
                                assert(nodes[pos as int].separators_within(size as nat));
                                assert(all_separators_within(ix.nodes@, size as nat));
                            }
                        }
                        proof {
                            lemma_insert_index_kept(old_root, keys, nodes, pos as int, k, v, size as nat, c);
                            assert(ix.nodes@[pos as int] == c);
                        }
                        InsertOutcome::Kept(Node::Index(ix))
                    },
                    InsertOutcome::Split(p) => {
                        let ghost gp = p;
                        ix.keys.insert(pos, p.new_key);
                        ix.nodes.insert(pos, p.new_left_node);
                        assert(pos < ix.nodes.len());
                        ix.nodes.insert(pos + 1, p.new_right_node);
                        proof {
                            assert(ix.nodes@ =~= nodes.update(pos as int, gp.new_left_node).insert(pos + 1, gp.new_right_node));
                            lemma_index_split_child(keys, nodes, pos as int, gp.new_key, gp.new_left_node, gp.new_right_node, lo, hi, false);
                            if strict_pre {
                                lemma_index_split_child(keys, nodes, pos as int, gp.new_key, gp.new_left_node, gp.new_right_node, lo, hi, true);
                            }
                            if old_root.balanced(d) {
                                assert(nodes[pos as int].balanced((d - 1) as nat));
                                assert(all_balanced(ix.nodes@, (d - 1) as nat));
                            }
                            if old_root.filled_below(half_of(size as nat)) {
                                assert(nodes[pos as int].filled(half_of(size as nat)));
                                assert(all_filled(ix.nodes@, half_of(size as nat)));
                            }
                            if old_root.leaves_within(size as nat) {
                                assert(nodes[pos as int].leaves_within(size as nat));
                                assert(all_leaves_within(ix.nodes@, size as nat));
                            }
                            if old_root.separators_within(max_separators(size as nat)) {
                                assert(nodes[pos as int].separators_within(max_separators(size as nat)));
                                assert(all_separators_within(ix.nodes@, max_separators(size as nat)));
                            }
                            if old_root.separators_within(size as nat) {
                                assert(nodes[pos as int].separators_within(size as nat));
                                assert(all_separators_within(ix.nodes@, size as nat));
                            }
                        }
                        proof {
                            lemma_insert_index_split(old_root, keys, nodes, pos as int, k, v, size as nat,
                                gp.new_key, gp.new_left_node, gp.new_right_node);
                        }
                        proof {
                            let ks2 = ix.keys@;
                            assert(forall|j: int| 0 <= j < pos ==> ks2[j] == keys[j]);
                            if lex_lt(k, key_of(gp.new_key)) {
                                lemma_child_pos(ks2, k, pos as int);
                                assert(ix.nodes@[pos as int] == gp.new_left_node);
                            } else {
                                lemma_lex_lt_total(k, key_of(gp.new_key));
                                if pos + 1 < ks2.len() {
                                    assert(ks2[pos + 1] == keys[pos as int]);
                                }
                                lemma_child_pos(ks2, k, pos + 1);
                                assert(ix.nodes@[pos + 1] == gp.new_right_node);
                            }
                        }
                        split_index_if_full(ix, size, Ghost(lo), Ghost(hi), Ghost(strict_pre), Ghost((d - 1) as nat), Ghost(k), Ghost(v))
                    },
                }
            },
        }
    }
}

} // verus!
