//! Looking keys up.
use vstd::prelude::*;
use crate::memory::pointer::BPlusTree;
use vstd::utf8::encode_utf8;
use crate::key_order::{KeyOrder, compare_bytes, spec_order, lex_le, lex_lt, lemma_lex_lt_irreflexive,
    lemma_lex_le_transitive, lemma_lex_lt_total, lemma_lex_lt_asymmetric};
use crate::memory::pointer::node::{Entry, Node, IndexNode, Item, key_of, items_entries, nodes_entries, in_bounds, all_in_bounds, sorted, child_lo, child_hi};
use crate::memory::pointer::shape::{key_seq, search_pos, lemma_child_pos};
use crate::memory::pointer::lemmas::{lemma_nodes_entries_at, lemma_wf_children_prefix, lemma_wf_children_suffix, prefix_hi};

verus! {

/// Some entry of `s` has key `k` and value `v`.
pub open spec fn has_entry(s: Seq<Entry>, k: Seq<u8>, v: Seq<char>) -> bool {
    exists|i: int| 0 <= i < s.len() && s[i] == (k, v)
}

/// Some entry of `s` has key `k`.
pub open spec fn has_key(s: Seq<Entry>, k: Seq<u8>) -> bool {
    exists|i: int| 0 <= i < s.len() && #[trigger] s[i].0 == k
}

/// The entries of the leaf that a search for `k` below `n` reaches: at each
/// index page, the first child whose separator is above `k`, or the last.
pub open spec fn reached_entries(n: Node, k: Seq<u8>) -> Seq<Entry>
    decreases n,
{
    match n {
        Node::Leaf(l) => items_entries(l.items@),
        Node::Index(ix) => {
            let p = search_pos(key_seq(ix.keys@), k);
            if 0 <= p < ix.nodes@.len() {
                reached_entries(ix.nodes@[p], k)
            } else {
                Seq::empty()
            }
        },
    }
}

/// Compares the key of a stored string with a looked-up key.
pub fn compare_key(stored: &String, key: &str) -> (r: KeyOrder)
    ensures
        r == spec_order(key_of(*stored), encode_utf8(key@)),
{
    compare_bytes(stored.as_str().as_bytes(), key.as_bytes())
}

/// The index of the child of `ix` that a search for `key` descends into:
/// the first whose separator is above `key`, or the last.
pub fn child_position(ix: &IndexNode, key: &str) -> (pos: usize)
    requires
        ix.nodes@.len() == ix.keys@.len() + 1,
    ensures
        0 <= pos <= ix.keys@.len(),
        forall|j: int| 0 <= j < pos ==> lex_le(#[trigger] key_of(ix.keys@[j]), encode_utf8(key@)),
        pos < ix.keys@.len() ==> lex_lt(encode_utf8(key@), key_of(ix.keys@[pos as int])),
{
    let mut i: usize = 0;
    while i < ix.keys.len()
        invariant
            0 <= i <= ix.keys@.len(),
            forall|j: int| 0 <= j < i ==> lex_le(#[trigger] key_of(ix.keys@[j]), encode_utf8(key@)),
        decreases ix.keys@.len() - i,
    {
        let c = compare_key(&ix.keys[i], key);
        match c {
            KeyOrder::Greater => {
                proof {
                    lemma_lex_lt_total(key_of(ix.keys@[i as int]), encode_utf8(key@));
                }
                return i;
            },
            _ => {},
        }
        i = i + 1;
    }
    i
}

/// Binary search for `key` among `items[lo..hi]`, halving as the tree's leaves are searched.
fn binary_find_range<'a>(key: &str, items: &'a [Item], lo: usize, hi: usize) -> (r: Option<&'a Item>)
    requires
        lo <= hi <= items@.len(),
    ensures
        r matches Some(it) ==> exists|i: int| lo <= i < hi && items@[i] == *it && key_of(it.key) == encode_utf8(key@),
        r is None && sorted(items_entries(items@)) ==> forall|i: int| lo <= i < hi ==> key_of(#[trigger] items@[i].key) != encode_utf8(key@),
    decreases hi - lo,
{
    let k = Ghost(encode_utf8(key@));
    let len = hi - lo;
    if len == 0 {
        return None;
    }
    if len == 1 {
        match compare_key(&items[lo].key, key) {
            KeyOrder::Equal => return Some(&items[lo]),
            _ => return None,
        }
    }
    let mid = lo + len / 2;
    match compare_key(&items[mid].key, key) {
        KeyOrder::Equal => Some(&items[mid]),
        KeyOrder::Greater => {
            let r = binary_find_range(key, items, lo, mid);
            proof {
                if r is None && sorted(items_entries(items@)) {
                    assert forall|i: int| lo <= i < hi implies key_of(#[trigger] items@[i].key) != k@ by {
                        if i >= mid {
                            let e = items_entries(items@);
                            assert(e[mid as int].0 == key_of(items@[mid as int].key));
                            assert(e[i].0 == key_of(items@[i].key));
                            if i > mid {
                                assert(lex_le(e[mid as int].0, e[i].0));
                            }
                            lemma_lex_lt_total(k@, key_of(items@[mid as int].key));
                            assert(lex_lt(k@, key_of(items@[mid as int].key)));
                            lemma_lex_le_transitive(k@, key_of(items@[mid as int].key), key_of(items@[i].key));
                            lemma_lex_lt_irreflexive(k@);
                        }
                    }
                }
            }
            r
        },
        KeyOrder::Less => {
            let r = binary_find_range(key, items, mid, hi);
            proof {
                if r is None && sorted(items_entries(items@)) {
                    assert forall|i: int| lo <= i < hi implies key_of(#[trigger] items@[i].key) != k@ by {
                        if i < mid {
                            let e = items_entries(items@);
                            assert(e[mid as int].0 == key_of(items@[mid as int].key));
                            assert(e[i].0 == key_of(items@[i].key));
                            assert(lex_le(e[i].0, e[mid as int].0));
                            assert(lex_lt(key_of(items@[mid as int].key), k@));
                            lemma_lex_le_transitive(key_of(items@[i].key), key_of(items@[mid as int].key), k@);
                            lemma_lex_lt_irreflexive(k@);
                        }
                    }
                }
            }
            r
        },
    }
}

impl BPlusTree {
    /// Binary search for `key` among the items of a leaf.
    ///
    /// A returned item has that key; where the items are in key order, nothing
    /// is returned only when no item has the key.
    pub fn binary_find<'a>(key: &str, items: &'a [Item]) -> (r: Option<&'a Item>)
        ensures
            r matches Some(it) ==> exists|i: int| 0 <= i < items@.len() && items@[i] == *it && key_of(it.key) == encode_utf8(key@),
            r is None && sorted(items_entries(items@)) ==> !has_key(items_entries(items@), encode_utf8(key@)),
    {
        let r = binary_find_range(key, items, 0, items.len());
        proof {
            if r is None && sorted(items_entries(items@)) {
                let e = items_entries(items@);
                assert forall|i: int| 0 <= i < e.len() implies #[trigger] e[i].0 != encode_utf8(key@) by {
                    assert(e[i].0 == key_of(items@[i].key));
                }
            }
        }
        r
    }
}

/// Entries bounded away from `k` do not have key `k`.
proof fn lemma_bounded_excludes(s: Seq<Entry>, lo: Option<Seq<u8>>, hi: Option<Seq<u8>>, k: Seq<u8>)
    requires
        all_in_bounds(s, lo, hi, true),
        (lo matches Some(l) && lex_lt(k, l)) || (hi matches Some(h) && lex_le(h, k)),
    ensures
        !has_key(s, k),
{
    assert forall|i: int| 0 <= i < s.len() implies #[trigger] s[i].0 != k by {
        assert(in_bounds(s[i].0, lo, hi, true));
        if lo is Some && lex_lt(k, lo->0) {
            lemma_lex_le_transitive(k, lo->0, s[i].0);
            lemma_lex_lt_irreflexive(k);
        } else {
            lemma_lex_le_transitive(s[i].0, hi->0, k);
            lemma_lex_lt_irreflexive(k);
        }
    }
}

/// Where the separators send a search for `k` to the `pos`-th child, no
/// other child of a page holds `k`, when the separators bound the children strictly.
pub proof fn lemma_search_excludes(ix: IndexNode, lo: Option<Seq<u8>>, hi: Option<Seq<u8>>, pos: int, k: Seq<u8>)
    requires
        Node::Index(ix).wf(lo, hi, true),
        0 <= pos <= ix.keys@.len(),
        forall|j: int| 0 <= j < pos ==> lex_le(#[trigger] key_of(ix.keys@[j]), k),
        pos < ix.keys@.len() ==> lex_lt(k, key_of(ix.keys@[pos])),
        !has_key(ix.nodes@[pos].entries(), k),
    ensures
        !has_key(Node::Index(ix).entries(), k),
{
    let root = Node::Index(ix);
    lemma_nodes_entries_at(ix.nodes@, pos);
    let pre = nodes_entries(ix.nodes@.subrange(0, pos));
    let mid = ix.nodes@[pos].entries();
    let post = nodes_entries(ix.nodes@.subrange(pos + 1, ix.nodes@.len() as int));
    let all = root.entries();
    if pos > 0 {
        lemma_wf_children_prefix(root, ix, lo, hi, true, pos);
        assert(prefix_hi(ix, lo, hi, pos) == Some(key_of(ix.keys@[pos - 1])));
        lemma_bounded_excludes(pre, lo, Some(key_of(ix.keys@[pos - 1])), k);
    } else {
        assert(ix.nodes@.subrange(0, 0) =~= Seq::<Node>::empty());
    }
    if pos < ix.keys@.len() {
        lemma_wf_children_suffix(root, ix, lo, hi, true, pos);
        lemma_lex_lt_asymmetric(k, key_of(ix.keys@[pos]));
        lemma_lex_lt_total(k, key_of(ix.keys@[pos]));
        assert forall|i: int| 0 <= i < post.len() implies #[trigger] post[i].0 != k by {
            assert(in_bounds(post[i].0, Some(key_of(ix.keys@[pos])), hi, true));
            if post[i].0 == k {
                lemma_lex_lt_irreflexive(k);
                lemma_lex_le_transitive(key_of(ix.keys@[pos]), k, k);
            }
        }
    } else {
        assert(ix.nodes@.subrange(pos + 1, ix.nodes@.len() as int) =~= Seq::<Node>::empty());
        assert(post.len() == 0);
    }
    assert forall|i: int| 0 <= i < all.len() implies #[trigger] all[i].0 != k by {
        if i < pre.len() {
            assert(all[i] == pre[i]);
        } else if i < pre.len() + mid.len() {
            assert(all[i] == mid[i - pre.len()]);
        } else {
            assert(all[i] == post[i - pre.len() - mid.len()]);
        }
    }
}

impl BPlusTree {
    /// Looks `key` up below `root`.
    pub fn get_inner(key: &str, root: &Node, Ghost(lo): Ghost<Option<Seq<u8>>>, Ghost(hi): Ghost<Option<Seq<u8>>>) -> (r: Option<String>)
        requires
            root.wf(lo, hi, false),
        ensures
            r matches Some(v) ==> has_entry(root.entries(), encode_utf8(key@), v@),
            r is None && root.wf(lo, hi, true) ==> !has_key(root.entries(), encode_utf8(key@)),
            r is Some <==> has_key(reached_entries(*root, encode_utf8(key@)), encode_utf8(key@)),
            r matches Some(v) ==> has_entry(reached_entries(*root, encode_utf8(key@)), encode_utf8(key@), v@),
        decreases root,
    {
        let k = Ghost(encode_utf8(key@));
        match root {
            Node::Index(ix) => {
                let pos = child_position(ix, key);
                proof {
                    lemma_child_pos(ix.keys@, k@, pos as int);
                }
                assert(ix.nodes@[pos as int].wf(child_lo(ix.keys@, lo, pos as int), child_hi(ix.keys@, hi, pos as int), false));
                let r = BPlusTree::get_inner(key, &ix.nodes[pos], Ghost(child_lo(ix.keys@, lo, pos as int)), Ghost(child_hi(ix.keys@, hi, pos as int)));
                proof {
                    lemma_nodes_entries_at(ix.nodes@, pos as int);
                    let pre = nodes_entries(ix.nodes@.subrange(0, pos as int));
                    let mid = ix.nodes@[pos as int].entries();
                    let post = nodes_entries(ix.nodes@.subrange(pos + 1, ix.nodes@.len() as int));
                    let all = root.entries();
                    assert(all == pre + mid + post);
                    if r is Some {
                        let v = r->0;
                        let i = choose|i: int| 0 <= i < mid.len() && mid[i] == (k@, v@);
                        assert(all[pre.len() + i] == mid[i]);
                    }
                    if r is None && root.wf(lo, hi, true) {
                        lemma_search_excludes(*ix, lo, hi, pos as int, k@);
                    }
                }
                r
            },
            Node::Leaf(leaf) => {
                match BPlusTree::binary_find(key, leaf.items.as_slice()) {
                    Some(it) => {
                        let v = it.value.clone();
                        proof {
                            let i = choose|i: int| 0 <= i < leaf.items@.len() && leaf.items@[i] == *it && key_of(it.key) == k@;
                            assert(root.entries()[i] == leaf.items@[i].entry());
                            assert(reached_entries(*root, k@)[i].0 == k@);
                        }
                        Some(v)
                    },
                    None => {
                        proof {
                            let e = items_entries(leaf.items@);
                            if has_key(e, k@) {
                                let i = choose|i: int| 0 <= i < e.len() && #[trigger] e[i].0 == k@;
                                assert(key_of(leaf.items@[i].key) == k@);
                            }
                        }
                        None
                    },
                }
            },
        }
    }
}

} // verus!
