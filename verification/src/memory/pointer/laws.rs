//! What inserting and removing do to the entries of a tree, as a map from
//! keys to values while no key occurs twice.
use vstd::prelude::*;
use crate::key_order::{lex_le, lex_lt, lemma_lex_lt_irreflexive, lemma_lex_le_transitive, lemma_lex_lt_total};
use crate::memory::pointer::node::{Entry, Node, sorted, strictly_sorted};
use crate::memory::pointer::query::{has_entry, has_key, reached_entries};
use crate::memory::pointer::shape::{key_seq, search_pos};
use crate::memory::pointer::lemmas::lemma_nodes_entries_at;
use crate::memory::pointer::insert::{insert_entry, upper_bound, lemma_upper_bound_le_len, lemma_upper_bound_split};
use crate::memory::pointer::remove::removed_one;

verus! {

/// In a sorted run, the upper bound of `k` separates the keys at or below
/// `k` from those above it.
pub proof fn lemma_upper_bound_sorted(s: Seq<Entry>, k: Seq<u8>)
    requires
        sorted(s),
    ensures
        upper_bound(s, k) <= s.len(),
        forall|j: int| 0 <= j < upper_bound(s, k) ==> lex_le(#[trigger] s[j].0, k),
        forall|j: int| upper_bound(s, k) <= j < s.len() ==> lex_lt(k, #[trigger] s[j].0),
{
    // the first entry whose key is above k
    let p = first_above(s, k, 0);
    lemma_first_above(s, k, 0);
    assert forall|j: int| #![trigger s[j]] 0 <= j < p implies lex_le(s[j].0, k) by {
        lemma_first_above(s, k, 0);
    }
    assert forall|j: int| #![trigger s[j]] p <= j < s.len() implies lex_lt(k, s[j].0) by {
        lemma_first_above(s, k, 0);
        if j > p {
            assert(lex_le(s[p].0, s[j].0));
            lemma_lex_le_transitive(k, s[p].0, s[j].0);
        }
    }
    lemma_upper_bound_split(s, k, p);
}

spec fn first_above(s: Seq<Entry>, k: Seq<u8>, i: int) -> int
    decreases s.len() - i,
{
    if i >= s.len() || i < 0 {
        s.len() as int
    } else if lex_lt(k, s[i].0) {
        i
    } else {
        first_above(s, k, i + 1)
    }
}

proof fn lemma_first_above(s: Seq<Entry>, k: Seq<u8>, i: int)
    requires
        0 <= i <= s.len(),
    ensures
        i <= first_above(s, k, i) <= s.len(),
        forall|j: int| i <= j < first_above(s, k, i) ==> lex_le(#[trigger] s[j].0, k),
        first_above(s, k, i) < s.len() ==> lex_lt(k, s[first_above(s, k, i)].0),
    decreases s.len() - i,
{
    if i < s.len() {
        lemma_first_above(s, k, i + 1);
        if !lex_lt(k, s[i].0) {
            lemma_lex_lt_total(k, s[i].0);
        }
    }
}

/// Inserting a key that is not there into a tree whose keys are all
/// distinct keeps them distinct, and the new key then has exactly the
/// value inserted with it.
pub proof fn lemma_insert_fresh_key(s: Seq<Entry>, k: Seq<u8>, v: Seq<char>)
    requires
        strictly_sorted(s),
        !has_key(s, k),
    ensures
        strictly_sorted(insert_entry(s, k, v)),
        has_entry(insert_entry(s, k, v), k, v),
        forall|v2: Seq<char>| has_entry(insert_entry(s, k, v), k, v2) ==> v2 == v,
{
    assert(sorted(s)) by {
        assert forall|i: int, j: int| 0 <= i < j < s.len() implies lex_le(#[trigger] s[i].0, #[trigger] s[j].0) by {}
    }
    lemma_upper_bound_sorted(s, k);
    let p = upper_bound(s, k) as int;
    let t = insert_entry(s, k, v);
    assert(t[p] == (k, v));
    assert forall|i: int, j: int| 0 <= i < j < t.len() implies lex_lt(#[trigger] t[i].0, #[trigger] t[j].0) by {
        if j < p {
            assert(t[i] == s[i] && t[j] == s[j]);
        } else if j == p {
            assert(t[i] == s[i]);
            assert(lex_le(s[i].0, k));
            if s[i].0 == k {
                assert(has_key(s, k));
            }
        } else if i < p {
            assert(t[i] == s[i] && t[j] == s[j - 1]);
            assert(lex_le(s[i].0, k));
            assert(lex_lt(k, s[j - 1].0));
            lemma_lex_le_transitive(s[i].0, k, s[j - 1].0);
        } else if i == p {
            assert(t[j] == s[j - 1]);
        } else {
            assert(t[i] == s[i - 1] && t[j] == s[j - 1]);
        }
    }
    assert forall|v2: Seq<char>| has_entry(t, k, v2) implies v2 == v by {
        let i = choose|i: int| 0 <= i < t.len() && t[i] == (k, v2);
        if i < p {
            assert(t[i] == s[i]);
            assert(has_key(s, k));
        } else if i > p {
            assert(t[i] == s[i - 1]);
            assert(has_key(s, k));
        }
    }
}

/// Inserting leaves the entries of every other key as they were.
pub proof fn lemma_insert_other_key(s: Seq<Entry>, k: Seq<u8>, v: Seq<char>, k2: Seq<u8>, v2: Seq<char>)
    requires
        k2 != k,
    ensures
        has_entry(insert_entry(s, k, v), k2, v2) == has_entry(s, k2, v2),
        insert_entry(s, k, v).len() == s.len() + 1,
{
    lemma_upper_bound_le_len(s, k);
    let p = upper_bound(s, k) as int;
    let t = insert_entry(s, k, v);
    if has_entry(t, k2, v2) {
        let i = choose|i: int| 0 <= i < t.len() && t[i] == (k2, v2);
        if i < p {
            assert(t[i] == s[i]);
        } else if i > p {
            assert(t[i] == s[i - 1]);
        }
    }
    if has_entry(s, k2, v2) {
        let i = choose|i: int| 0 <= i < s.len() && s[i] == (k2, v2);
        if i < p {
            assert(t[i] == s[i]);
        } else {
            assert(t[i + 1] == s[i]);
        }
    }
}

/// Removing the entry of a key from a tree whose keys are all distinct
/// leaves no entry with that key, and the keys distinct.
pub proof fn lemma_remove_unique_key(s: Seq<Entry>, t: Seq<Entry>, k: Seq<u8>)
    requires
        strictly_sorted(s),
        removed_one(s, t, k),
    ensures
        !has_key(t, k),
        strictly_sorted(t),
        t.len() + 1 == s.len(),
{
    let p = choose|i: int| 0 <= i < s.len() && #[trigger] s[i].0 == k && t == s.remove(i);
    assert forall|i: int| 0 <= i < t.len() implies #[trigger] t[i].0 != k by {
        if i < p {
            assert(t[i] == s[i]);
            assert(lex_lt(s[i].0, s[p].0));
            lemma_lex_lt_irreflexive(k);
        } else {
            assert(t[i] == s[i + 1]);
            assert(lex_lt(s[p].0, s[i + 1].0));
            lemma_lex_lt_irreflexive(k);
        }
    }
    assert forall|i: int, j: int| 0 <= i < j < t.len() implies lex_lt(#[trigger] t[i].0, #[trigger] t[j].0) by {
        let i0 = if i < p { i } else { i + 1 };
        let j0 = if j < p { j } else { j + 1 };
        assert(t[i] == s[i0] && t[j] == s[j0]);
    }
}

/// Removing an entry of one key leaves the entries of every other key as they were.
pub proof fn lemma_remove_other_key(s: Seq<Entry>, t: Seq<Entry>, k: Seq<u8>, k2: Seq<u8>, v2: Seq<char>)
    requires
        removed_one(s, t, k),
        k2 != k,
    ensures
        has_entry(t, k2, v2) == has_entry(s, k2, v2),
{
    let p = choose|i: int| 0 <= i < s.len() && #[trigger] s[i].0 == k && t == s.remove(i);
    if has_entry(t, k2, v2) {
        let i = choose|i: int| 0 <= i < t.len() && t[i] == (k2, v2);
        if i < p {
            assert(t[i] == s[i]);
        } else {
            assert(t[i] == s[i + 1]);
        }
    }
    if has_entry(s, k2, v2) {
        let i = choose|i: int| 0 <= i < s.len() && s[i] == (k2, v2);
        if i < p {
            assert(t[i] == s[i]);
        } else {
            assert(i != p);
            assert(t[i - 1] == s[i]);
        }
    }
}

/// Removing the key just inserted into a tree whose keys are all distinct,
/// where it was not before, gives back the entries the tree had.
pub proof fn lemma_insert_then_remove(s: Seq<Entry>, k: Seq<u8>, v: Seq<char>, t: Seq<Entry>)
    requires
        strictly_sorted(s),
        !has_key(s, k),
        removed_one(insert_entry(s, k, v), t, k),
    ensures
        t == s,
{
    lemma_insert_fresh_key(s, k, v);
    let ins = insert_entry(s, k, v);
    assert(sorted(s)) by {
        assert forall|i: int, j: int| 0 <= i < j < s.len() implies lex_le(#[trigger] s[i].0, #[trigger] s[j].0) by {}
    }
    lemma_upper_bound_sorted(s, k);
    let p = upper_bound(s, k) as int;
    assert(ins[p] == (k, v));
    let i = choose|i: int| 0 <= i < ins.len() && #[trigger] ins[i].0 == k && t == ins.remove(i);
    if i < p {
        assert(lex_lt(ins[i].0, ins[p].0));
        lemma_lex_lt_irreflexive(k);
    } else if i > p {
        assert(lex_lt(ins[p].0, ins[i].0));
        lemma_lex_lt_irreflexive(k);
    }
    assert(ins.remove(p) =~= s);
}

/// What a search finds lies in the tree: an entry with key `k2` and value
/// `v` in the leaf that a search for `k` reaches is an entry of the subtree.
pub proof fn lemma_found_is_stored(n: Node, k: Seq<u8>, k2: Seq<u8>, v: Seq<char>)
    ensures
        has_entry(reached_entries(n, k), k2, v) ==> has_entry(n.entries(), k2, v),
    decreases n,
{
    match n {
        Node::Leaf(_) => {},
        Node::Index(ix) => {
            let p = search_pos(key_seq(ix.keys@), k);
            if 0 <= p < ix.nodes@.len() && has_entry(reached_entries(n, k), k2, v) {
                let c = ix.nodes@[p];
                lemma_found_is_stored(c, k, k2, v);
                lemma_nodes_entries_at(ix.nodes@, p);
                let pre = crate::memory::pointer::node::nodes_entries(ix.nodes@.subrange(0, p));
                let j0 = choose|j: int| 0 <= j < c.entries().len() && c.entries()[j] == (k2, v);
                assert(n.entries()[pre.len() + j0] == c.entries()[j0]);
            }
        },
    }
}

} // verus!
