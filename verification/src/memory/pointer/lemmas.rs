//! Facts about the entries of subtrees and the search-tree invariant.
use vstd::prelude::*;
use crate::key_order::{lex_le, lemma_lex_le_transitive};
use crate::memory::pointer::node::{Entry, Node, IndexNode, Item, key_of, items_entries, nodes_entries, in_bounds, sep_in_bounds, all_in_bounds, sorted, keys_sorted, child_lo, child_hi};

verus! {

/// `a` is no higher than `b` as a lower bound (`None` is the lowest).
pub open spec fn lo_le(a: Option<Seq<u8>>, b: Option<Seq<u8>>) -> bool {
    a is None || (b is Some && lex_le(a->0, b->0))
}

/// `a` is no higher than `b` as an upper bound (`None` is the highest).
pub open spec fn hi_le(a: Option<Seq<u8>>, b: Option<Seq<u8>>) -> bool {
    b is None || (a is Some && lex_le(a->0, b->0))
}

/// The entries of a list of subtrees split where the list splits.
pub proof fn lemma_nodes_entries_split(s: Seq<Node>, i: int)
    requires
        0 <= i <= s.len(),
    ensures
        nodes_entries(s) == nodes_entries(s.subrange(0, i)) + nodes_entries(s.subrange(i, s.len() as int)),
    decreases s.len(),
{
    if i == s.len() {
        assert(s.subrange(0, i) =~= s);
        assert(s.subrange(i, s.len() as int) =~= Seq::<Node>::empty());
        assert(nodes_entries(s.subrange(i, s.len() as int)) =~= Seq::<Entry>::empty());
        assert(nodes_entries(s) + Seq::<Entry>::empty() =~= nodes_entries(s));
    } else {
        let dl = s.drop_last();
        lemma_nodes_entries_split(dl, i);
        assert(dl.subrange(0, i) =~= s.subrange(0, i));
        let tail = s.subrange(i, s.len() as int);
        assert(tail.drop_last() =~= dl.subrange(i, dl.len() as int));
        assert(tail.last() == s.last());
        assert(nodes_entries(tail) == nodes_entries(tail.drop_last()) + tail.last().entries());
        assert(nodes_entries(s) =~= nodes_entries(s.subrange(0, i)) + nodes_entries(tail));
    }
}

/// A single subtree contributes its own entries.
pub proof fn lemma_nodes_entries_one(n: Node)
    ensures
        nodes_entries(seq![n]) == n.entries(),
{
    assert(seq![n].drop_last() =~= Seq::<Node>::empty());
    assert(nodes_entries(Seq::<Node>::empty()) =~= Seq::<Entry>::empty());
    assert(Seq::<Entry>::empty() + n.entries() =~= n.entries());
}

/// Entries of a list of subtrees with one subtree in the middle taken apart.
pub proof fn lemma_nodes_entries_at(s: Seq<Node>, i: int)
    requires
        0 <= i < s.len(),
    ensures
        nodes_entries(s) == nodes_entries(s.subrange(0, i)) + s[i].entries() + nodes_entries(s.subrange(i + 1, s.len() as int)),
{
    lemma_nodes_entries_split(s, i);
    let tail = s.subrange(i, s.len() as int);
    lemma_nodes_entries_split(tail, 1);
    assert(tail.subrange(0, 1) =~= seq![s[i]]);
    assert(tail.subrange(1, tail.len() as int) =~= s.subrange(i + 1, s.len() as int));
    lemma_nodes_entries_one(s[i]);
    assert(nodes_entries(s) =~= nodes_entries(s.subrange(0, i)) + s[i].entries() + nodes_entries(s.subrange(i + 1, s.len() as int)));
}

/// Entries of a list of subtrees made of two lists.
pub proof fn lemma_nodes_entries_concat(a: Seq<Node>, b: Seq<Node>)
    ensures
        nodes_entries(a + b) == nodes_entries(a) + nodes_entries(b),
{
    lemma_nodes_entries_split(a + b, a.len() as int);
    assert((a + b).subrange(0, a.len() as int) =~= a);
    assert((a + b).subrange(a.len() as int, (a + b).len() as int) =~= b);
}

/// Entries of the items of a leaf made of two lists.
pub proof fn lemma_items_entries_concat(a: Seq<Item>, b: Seq<Item>)
    ensures
        items_entries(a + b) == items_entries(a) + items_entries(b),
{
    assert(items_entries(a + b) =~= items_entries(a) + items_entries(b));
}

/// Bounds that hold between looser bounds still hold.
pub proof fn lemma_in_bounds_widen(
    k: Seq<u8>,
    lo: Option<Seq<u8>>,
    hi: Option<Seq<u8>>,
    lo2: Option<Seq<u8>>,
    hi2: Option<Seq<u8>>,
    strict: bool,
)
    requires
        in_bounds(k, lo, hi, strict),
        lo_le(lo2, lo),
        hi_le(hi, hi2),
    ensures
        in_bounds(k, lo2, hi2, strict),
{
    if lo2 is Some {
        lemma_lex_le_transitive(lo2->0, lo->0, k);
    }
    if hi2 is Some {
        lemma_lex_le_transitive(k, hi->0, hi2->0);
    }
}

/// Two sorted runs, the first below the second, form a sorted run.
pub proof fn lemma_sorted_concat(a: Seq<Entry>, b: Seq<Entry>, m: Seq<u8>)
    requires
        sorted(a),
        sorted(b),
        forall|i: int| #![trigger a[i]] 0 <= i < a.len() ==> lex_le(a[i].0, m),
        forall|i: int| #![trigger b[i]] 0 <= i < b.len() ==> lex_le(m, b[i].0),
    ensures
        sorted(a + b),
{
    let c = a + b;
    assert forall|i: int, j: int| 0 <= i < j < c.len() implies lex_le(#[trigger] c[i].0, #[trigger] c[j].0) by {
        if j < a.len() {
            assert(c[i] == a[i] && c[j] == a[j]);
        } else if i >= a.len() {
            assert(c[i] == b[i - a.len()] && c[j] == b[j - a.len()]);
        } else {
            assert(c[i] == a[i] && c[j] == b[j - a.len()]);
            lemma_lex_le_transitive(a[i].0, m, b[j - a.len()].0);
        }
    }
}

/// Entries of a list of subtrees all lie within the given bounds when each subtree's do.
pub proof fn lemma_all_in_bounds_concat(a: Seq<Entry>, b: Seq<Entry>, lo: Option<Seq<u8>>, hi: Option<Seq<u8>>, strict: bool)
    requires
        all_in_bounds(a, lo, hi, strict),
        all_in_bounds(b, lo, hi, strict),
    ensures
        all_in_bounds(a + b, lo, hi, strict),
{
    let c = a + b;
    assert forall|i: int| 0 <= i < c.len() implies in_bounds(#[trigger] c[i].0, lo, hi, strict) by {
        if i < a.len() {
            assert(c[i] == a[i]);
        } else {
            assert(c[i] == b[i - a.len()]);
        }
    }
}

/// Widening the bounds of a whole run.
pub proof fn lemma_all_in_bounds_widen(
    s: Seq<Entry>,
    lo: Option<Seq<u8>>,
    hi: Option<Seq<u8>>,
    lo2: Option<Seq<u8>>,
    hi2: Option<Seq<u8>>,
    strict: bool,
)
    requires
        all_in_bounds(s, lo, hi, strict),
        lo_le(lo2, lo),
        hi_le(hi, hi2),
    ensures
        all_in_bounds(s, lo2, hi2, strict),
{
    assert forall|i: int| 0 <= i < s.len() implies in_bounds(#[trigger] s[i].0, lo2, hi2, strict) by {
        lemma_in_bounds_widen(s[i].0, lo, hi, lo2, hi2, strict);
    }
}

/// A search tree's entries are sorted and lie within its bounds.
pub proof fn lemma_wf_entries(n: Node, lo: Option<Seq<u8>>, hi: Option<Seq<u8>>, strict: bool)
    requires
        n.wf(lo, hi, strict),
    ensures
        sorted(n.entries()),
        all_in_bounds(n.entries(), lo, hi, strict),
    decreases n, 1nat,
{
    match n {
        Node::Leaf(_) => {},
        Node::Index(ix) => {
            lemma_wf_children_prefix(n, ix, lo, hi, strict, ix.nodes@.len() as int);
            assert(ix.nodes@.subrange(0, ix.nodes@.len() as int) =~= ix.nodes@);
        },
    }
}

/// The bound above the first `i` children of an index page.
pub open spec fn prefix_hi(ix: IndexNode, lo: Option<Seq<u8>>, hi: Option<Seq<u8>>, i: int) -> Option<Seq<u8>> {
    if i == 0 { lo } else { child_hi(ix.keys@, hi, i - 1) }
}

pub proof fn lemma_wf_children_prefix(n: Node, ix: IndexNode, lo: Option<Seq<u8>>, hi: Option<Seq<u8>>, strict: bool, i: int)
    requires
        n == Node::Index(ix),
        n.wf(lo, hi, strict),
        0 <= i <= ix.nodes@.len(),
    ensures
        sorted(nodes_entries(ix.nodes@.subrange(0, i))),
        i > 0 ==> all_in_bounds(nodes_entries(ix.nodes@.subrange(0, i)), lo, prefix_hi(ix, lo, hi, i), strict),
        i == 0 ==> nodes_entries(ix.nodes@.subrange(0, i)).len() == 0,
    decreases n, 0nat, i,
{
    let pre = ix.nodes@.subrange(0, i);
    if i == 0 {
        assert(pre =~= Seq::<Node>::empty());
    } else {
        lemma_wf_children_prefix(n, ix, lo, hi, strict, i - 1);
        let prev = ix.nodes@.subrange(0, i - 1);
        assert(pre.drop_last() =~= prev);
        assert(pre.last() == ix.nodes@[i - 1]);
        let a = nodes_entries(prev);
        let child = ix.nodes@[i - 1];
        assert(child.wf(child_lo(ix.keys@, lo, i - 1), child_hi(ix.keys@, hi, i - 1), strict));
        lemma_wf_entries(child, child_lo(ix.keys@, lo, i - 1), child_hi(ix.keys@, hi, i - 1), strict);
        let b = child.entries();
        assert(nodes_entries(pre) == a + b);
        if i == 1 {
            assert(a.len() == 0);
            assert(a + b =~= b);
        } else {
            // the separator between the prefix and the new child
            let m = key_of(ix.keys@[i - 2]);
            assert(child_lo(ix.keys@, lo, i - 1) == Some(m));
            assert(prefix_hi(ix, lo, hi, i - 1) == Some(m));
            assert forall|j: int| #![trigger a[j]] 0 <= j < a.len() implies lex_le(a[j].0, m) by {
                assert(in_bounds(a[j].0, lo, Some(m), strict));
            }
            assert forall|j: int| #![trigger b[j]] 0 <= j < b.len() implies lex_le(m, b[j].0) by {
                assert(in_bounds(b[j].0, Some(m), child_hi(ix.keys@, hi, i - 1), strict));
            }
            lemma_sorted_concat(a, b, m);
            // widen both runs to the bounds of the longer prefix
            assert(sep_in_bounds(m, lo, hi));
            if i - 1 < ix.keys@.len() {
                assert(keys_sorted(ix.keys@));
                assert(lex_le(key_of(ix.keys@[i - 2]), key_of(ix.keys@[i - 1])));
            }
            assert(hi_le(Some(m), child_hi(ix.keys@, hi, i - 1)));
            if strict {
                assert forall|j: int| 0 <= j < a.len() implies in_bounds(#[trigger] a[j].0, lo, child_hi(ix.keys@, hi, i - 1), strict) by {
                    assert(in_bounds(a[j].0, lo, Some(m), strict));
                    if child_hi(ix.keys@, hi, i - 1) is Some {
                        lemma_lex_le_transitive(a[j].0, m, child_hi(ix.keys@, hi, i - 1)->0);
                    }
                }
            } else {
                lemma_all_in_bounds_widen(a, lo, Some(m), lo, child_hi(ix.keys@, hi, i - 1), strict);
            }
            assert(lo_le(lo, Some(m)));
            lemma_all_in_bounds_widen(b, Some(m), child_hi(ix.keys@, hi, i - 1), lo, child_hi(ix.keys@, hi, i - 1), strict);
            lemma_all_in_bounds_concat(a, b, lo, child_hi(ix.keys@, hi, i - 1), strict);
        }
    }
}

/// Bounds shared by every subtree of a list hold of all their entries.
pub proof fn lemma_nodes_entries_bounds(s: Seq<Node>, lo: Option<Seq<u8>>, hi: Option<Seq<u8>>, strict: bool)
    requires
        forall|j: int| #![trigger s[j]] 0 <= j < s.len() ==> all_in_bounds(s[j].entries(), lo, hi, strict),
    ensures
        all_in_bounds(nodes_entries(s), lo, hi, strict),
    decreases s.len(),
{
    if s.len() > 0 {
        let dl = s.drop_last();
        assert forall|j: int| #![trigger dl[j]] 0 <= j < dl.len() implies all_in_bounds(dl[j].entries(), lo, hi, strict) by {
            assert(dl[j] == s[j]);
        }
        lemma_nodes_entries_bounds(dl, lo, hi, strict);
        assert(all_in_bounds(s[s.len() - 1].entries(), lo, hi, strict));
        lemma_all_in_bounds_concat(nodes_entries(dl), s.last().entries(), lo, hi, strict);
    }
}

/// The entries of the children after the `i`-th lie at or above the `i`-th separator.
pub proof fn lemma_wf_children_suffix(n: Node, ix: IndexNode, lo: Option<Seq<u8>>, hi: Option<Seq<u8>>, strict: bool, i: int)
    requires
        n == Node::Index(ix),
        n.wf(lo, hi, strict),
        0 <= i < ix.keys@.len(),
    ensures
        all_in_bounds(nodes_entries(ix.nodes@.subrange(i + 1, ix.nodes@.len() as int)), Some(key_of(ix.keys@[i])), hi, strict),
{
    let s = ix.nodes@.subrange(i + 1, ix.nodes@.len() as int);
    let m = Some(key_of(ix.keys@[i]));
    assert forall|j: int| #![trigger s[j]] 0 <= j < s.len() implies all_in_bounds(s[j].entries(), m, hi, strict) by {
        let c = i + 1 + j;
        assert(s[j] == ix.nodes@[c]);
        assert(ix.nodes@[c].wf(child_lo(ix.keys@, lo, c), child_hi(ix.keys@, hi, c), strict));
        lemma_wf_entries(ix.nodes@[c], child_lo(ix.keys@, lo, c), child_hi(ix.keys@, hi, c), strict);
        if c - 1 > i {
            assert(lex_le(key_of(ix.keys@[i]), key_of(ix.keys@[c - 1])));
        }
        if c < ix.keys@.len() {
            assert(sep_in_bounds(key_of(ix.keys@[c]), lo, hi));
        }
        lemma_all_in_bounds_widen(s[j].entries(), child_lo(ix.keys@, lo, c), child_hi(ix.keys@, hi, c), m, hi, strict);
    }
    lemma_nodes_entries_bounds(s, m, hi, strict);
}

} // verus!
