#![allow(non_snake_case)]

use std::collections::BTreeMap;

use bplus_tree::memory::pointer::node::{Item, Node};
use bplus_tree::memory::pointer::BPlusTree;

#[test]
fn pointer_insertTest() {
    let mut btree = BPlusTree::new(2);
    btree.insert("1".to_string(), "hello".to_string());
    btree.insert("2".to_string(), "world".to_string());
    btree.insert("3".to_string(), "hello world".to_string());
    btree.insert("4".to_string(), "hello".to_string());
    btree.insert("5".to_string(), "world".to_string());
    btree.insert("6".to_string(), "hello world".to_string());
}

#[test]
fn pointer_getTest() {
    let mut btree = BPlusTree::new(2);
    btree.insert("1".to_string(), "v 1".to_string());
    btree.insert("2".to_string(), "v 2".to_string());
    btree.insert("3".to_string(), "v 3".to_string());
    btree.insert("4".to_string(), "v 4".to_string());
    btree.insert("5".to_string(), "v 5".to_string());
    btree.insert("6".to_string(), "v 6".to_string());
    btree.insert("7".to_string(), "v 7".to_string());
    btree.insert("8".to_string(), "v 8".to_string());
    btree.insert("9".to_string(), "v 9".to_string());
    match btree.get("3") {
        Some(v) => {
            println!("{:?}", v);
        }
        None => {
            println!("not found");
        }
    }
}

#[test]
fn pointer_v3_insertTest() {
    let mut btree = BPlusTree::new(2);
    btree.insert("1".to_string(), "hello".to_string());
    btree.insert("2".to_string(), "world".to_string());
    btree.insert("3".to_string(), "hello world".to_string());
    btree.insert("4".to_string(), "hello".to_string());
    btree.insert("5".to_string(), "world".to_string());
    btree.insert("6".to_string(), "hello world".to_string());
}

#[test]
fn pointer_v3_getTest() {
    let mut btree = BPlusTree::new(2);
    btree.insert("1".to_string(), "v 1".to_string());
    btree.insert("2".to_string(), "v 2".to_string());
    btree.insert("3".to_string(), "v 3".to_string());
    btree.insert("4".to_string(), "v 4".to_string());
    btree.insert("5".to_string(), "v 5".to_string());
    btree.insert("6".to_string(), "v 6".to_string());
    btree.insert("7".to_string(), "v 7".to_string());
    btree.insert("8".to_string(), "v 8".to_string());
    btree.insert("9".to_string(), "v 9".to_string());
    match btree.get("3") {
        Some(v) => {
            println!("{:?}", v);
        }
        None => {
            println!("not found");
        }
    }
}

#[test]
fn mod_insertTest() {
    let mut btree = BPlusTree::new(2);
    btree.insert("1".to_string(), "hello".to_string());
    btree.insert("2".to_string(), "world".to_string());
    btree.insert("3".to_string(), "hello world".to_string());
    btree.insert("4".to_string(), "hello".to_string());
    btree.insert("5".to_string(), "world".to_string());
    btree.insert("6".to_string(), "hello world".to_string());
}

#[test]
fn mod_getTest() {
    let mut btree = BPlusTree::new(2);
    btree.insert("1".to_string(), "v 1".to_string());
    btree.insert("2".to_string(), "v 2".to_string());
    btree.insert("3".to_string(), "v 3".to_string());
    btree.insert("4".to_string(), "v 4".to_string());
    btree.insert("5".to_string(), "v 5".to_string());
    btree.insert("6".to_string(), "v 6".to_string());
    btree.insert("7".to_string(), "v 7".to_string());
    btree.insert("8".to_string(), "v 8".to_string());
    btree.insert("9".to_string(), "v 9".to_string());
    match btree.get("3") {
        Some(v) => {
            println!("{:?}", v);
        }
        None => {
            println!("not found");
        }
    }
}

#[test]
fn binaryFindTest() {
    let mut items = Vec::new();
    for i in 0..7 {
        items.push(Item {
            key: String::from(i.to_string()),
            value: String::from(i.to_string()),
        });
    }
    let r = BPlusTree::binary_find("2", &items);
    println!("{:?}", r);
}

#[test]
fn pointer_v2_insertTest() {
    let mut btree = BPlusTree::new(2);
    btree.insert("1".to_string(), "hello".to_string());
    btree.insert("2".to_string(), "world".to_string());
    btree.insert("3".to_string(), "hello world".to_string());
}

#[test]
fn pointer_v2_getTest() {
    let mut btree = BPlusTree::new(2);
    btree.insert("1".to_string(), "hello".to_string());
    btree.insert("2".to_string(), "world".to_string());
    btree.insert("3".to_string(), "hello world".to_string());
    btree.insert("4".to_string(), "hello world".to_string());
    btree.insert("5".to_string(), "hello world".to_string());
    btree.insert("6".to_string(), "hello world".to_string());
    match btree.get("3") {
        Some(v) => {
            println!("{:?}", v);
        }
        None => {
            println!("not found");
        }
    }
}

/// Every key read back gives the value it was written with.
#[test]
fn get_reads_back_every_insert() {
    for size in 2..6 {
        let mut btree = BPlusTree::new(size);
        for i in 1..10 {
            btree.insert(i.to_string(), format!("v {}", i));
        }
        for i in 1..10 {
            assert_eq!(btree.get(&i.to_string()), Some(format!("v {}", i)));
        }
        assert_eq!(btree.get("0"), None);
        assert_eq!(btree.get("10"), None);
        assert_eq!(btree.get(""), None);
    }
}

/// The keys of the example program, inserted out of order, are all found.
#[test]
fn get_after_unordered_inserts() {
    let mut btree = BPlusTree::new(2);
    for k in ["8", "0", "6", "1", "3", "12", "4", "5", "7", "9", "10", "2", "11"] {
        btree.insert(k.to_string(), format!("hello world {}", k));
    }
    for index in 0..13 {
        assert_eq!(btree.get(&index.to_string()), Some(format!("hello world {}", index)));
    }
    assert_eq!(btree.get("13"), None);
}

/// A page of order two splits on its third item; the root becomes an index page.
#[test]
fn leaf_split_makes_index_root() {
    let mut btree = BPlusTree::new(2);
    btree.insert("1".to_string(), "a".to_string());
    btree.insert("2".to_string(), "b".to_string());
    match btree.root() {
        Node::Leaf(l) => assert_eq!(l.items.len(), 2),
        Node::Index(_) => panic!("root split too early"),
    }
    btree.insert("3".to_string(), "c".to_string());
    match btree.root() {
        Node::Index(ix) => {
            assert_eq!(ix.keys, vec!["3".to_string()]);
            assert_eq!(ix.nodes.len(), 2);
            match (&ix.nodes[0], &ix.nodes[1]) {
                (Node::Leaf(l), Node::Leaf(r)) => {
                    assert_eq!(l.items.iter().map(|it| it.key.clone()).collect::<Vec<_>>(), vec!["1", "2"]);
                    assert_eq!(r.items.iter().map(|it| it.key.clone()).collect::<Vec<_>>(), vec!["3"]);
                }
                _ => panic!("children should be leaves"),
            }
        }
        Node::Leaf(_) => panic!("root should have split"),
    }
}

/// Removing reports whether an entry was removed, and removed keys are gone.
#[test]
fn remove_then_get() {
    let mut btree = BPlusTree::new(2);
    for i in 0..30 {
        btree.insert(format!("{:02}", i), format!("v{}", i));
    }
    assert_eq!(btree.remove("99"), None);
    for i in (0..30).step_by(3) {
        assert_eq!(btree.remove(&format!("{:02}", i)), Some(String::new()));
    }
    for i in 0..30 {
        let got = btree.get(&format!("{:02}", i));
        if i % 3 == 0 {
            assert_eq!(got, None);
        } else {
            assert_eq!(got, Some(format!("v{}", i)));
        }
    }
    assert_eq!(btree.remove("00"), None);
}

/// Removing every key empties the tree and collapses the root back to a leaf.
#[test]
fn remove_everything() {
    for size in 2..5 {
        let mut btree = BPlusTree::new(size);
        for i in 0..40 {
            btree.insert(format!("{:02}", i), i.to_string());
        }
        for i in 0..40 {
            assert_eq!(btree.remove(&format!("{:02}", (i * 7) % 40)), Some(String::new()));
        }
        for i in 0..40 {
            assert_eq!(btree.get(&format!("{:02}", i)), None);
        }
        match btree.root() {
            Node::Leaf(l) => assert!(l.items.is_empty()),
            Node::Index(_) => panic!("an empty tree keeps an index page"),
        }
    }
}

/// A key inserted twice keeps both entries; the first removal leaves one.
#[test]
fn duplicate_keys_stay_side_by_side() {
    let mut btree = BPlusTree::new(3);
    btree.insert("k".to_string(), "first".to_string());
    btree.insert("k".to_string(), "second".to_string());
    let got = btree.get("k").unwrap();
    assert!(got == "first" || got == "second");
    match btree.root() {
        Node::Leaf(l) => {
            assert_eq!(l.items[0].value, "first");
            assert_eq!(l.items[1].value, "second");
        }
        Node::Index(_) => panic!("two items fit one page of order three"),
    }
    assert_eq!(btree.remove("k"), Some(String::new()));
    assert!(btree.get("k").is_some());
    assert_eq!(btree.remove("k"), Some(String::new()));
    assert_eq!(btree.get("k"), None);
}

/// Keys order by their bytes, as `str` does.
#[test]
fn keys_order_bytewise() {
    let mut btree = BPlusTree::new(2);
    for k in ["b", "a", "ab", "", "é", "Z", "aa"] {
        btree.insert(k.to_string(), format!("<{}>", k));
    }
    for k in ["b", "a", "ab", "", "é", "Z", "aa"] {
        assert_eq!(btree.get(k), Some(format!("<{}>", k)));
    }
    let mut keys = Vec::new();
    collect_keys(btree.root(), &mut keys);
    let mut sorted = keys.clone();
    sorted.sort();
    assert_eq!(keys, sorted);
}

fn collect_keys(n: &Node, out: &mut Vec<String>) {
    match n {
        Node::Leaf(l) => out.extend(l.items.iter().map(|it| it.key.clone())),
        Node::Index(ix) => {
            for c in ix.nodes.iter() {
                collect_keys(c, out);
            }
        }
    }
}

/// Mixed insertions and removals agree with a map.
#[test]
fn agrees_with_a_map() {
    let mut btree = BPlusTree::new(3);
    let mut model: BTreeMap<String, String> = BTreeMap::new();
    let mut x: u64 = 12345;
    for step in 0..2000 {
        x = x.wrapping_mul(6364136223846793005).wrapping_add(1442695040888963407);
        let k = format!("{}", (x >> 33) % 97);
        if (x >> 20) % 3 == 0 {
            let expected = if model.remove(&k).is_some() { Some(String::new()) } else { None };
            assert_eq!(btree.remove(&k), expected, "step {}", step);
        } else if !model.contains_key(&k) {
            let v = format!("v{}", step);
            model.insert(k.clone(), v.clone());
            btree.insert(k, v);
        }
        let probe = format!("{}", (x >> 40) % 97);
        assert_eq!(btree.get(&probe), model.get(&probe).cloned(), "step {}", step);
    }
    let mut keys = Vec::new();
    collect_keys(btree.root(), &mut keys);
    assert_eq!(keys, model.keys().cloned().collect::<Vec<_>>());
}

#[test]
fn binary_find_hits_and_misses() {
    let items: Vec<Item> = (0..7).map(|i| Item::new(i.to_string(), format!("v{}", i))).collect();
    for i in 0..7 {
        let it = BPlusTree::binary_find(&i.to_string(), &items).unwrap();
        assert_eq!(it.value, format!("v{}", i));
    }
    assert!(BPlusTree::binary_find("7", &items).is_none());
    assert!(BPlusTree::binary_find("", &items).is_none());
    assert!(BPlusTree::binary_find("3", &[]).is_none());
}

#[test]
fn item_new_keeps_fields() {
    let it = Item::new("k".to_string(), "v".to_string());
    assert_eq!(it.key, "k");
    assert_eq!(it.value, "v");
}

/// Depth of every leaf, and whether every page but the root is filled and
/// no leaf holds more than `size` items.
fn shape(n: &Node, depth: usize, is_root: bool, half: usize, size: usize, depths: &mut Vec<usize>) -> bool {
    match n {
        Node::Leaf(l) => {
            depths.push(depth);
            (is_root || l.items.len() >= half) && l.items.len() <= size
        }
        Node::Index(ix) => {
            let mut ok = ix.keys.len() >= 1 && ix.nodes.len() == ix.keys.len() + 1;
            for c in ix.nodes.iter() {
                ok = shape(c, depth + 1, false, half, size, depths) && ok;
            }
            ok
        }
    }
}

/// All leaves lie equally deep, leaves other than the root hold at least half
/// of the order and no leaf more than the order, and index pages hold a
/// separator, through insertions and removals.
#[test]
fn stays_balanced_and_filled() {
    for size in 2..7 {
        let half = (size + 1) / 2;
        let mut btree = BPlusTree::new(size);
        let mut x: u64 = 7;
        for step in 0..600 {
            x = x.wrapping_mul(6364136223846793005).wrapping_add(1442695040888963407);
            let k = format!("{:03}", (x >> 33) % 150);
            if step % 3 == 2 {
                btree.remove(&k);
            } else if btree.get(&k).is_none() {
                btree.insert(k, step.to_string());
            }
            let mut depths = Vec::new();
            assert!(shape(btree.root(), 0, true, half, size, &mut depths), "size {} step {}", size, step);
            assert!(depths.iter().all(|d| *d == depths[0]), "size {} step {}", size, step);
        }
    }
}

fn max_separators(n: &Node) -> usize {
    match n {
        Node::Leaf(_) => 0,
        Node::Index(ix) => {
            let mut m = ix.keys.len();
            for c in ix.nodes.iter() {
                m = m.max(max_separators(c));
            }
            m
        }
    }
}

/// Index pages hold at most the order rounded up to even in separators:
/// the order itself for even orders; for odd orders a merge can leave one more.
#[test]
fn index_pages_within_order_rounded_up_to_even() {
    for size in 2usize..7 {
        let bound = size + size % 2;
        let mut seen = 0;
        for seed in 1..40u64 {
            let mut btree = BPlusTree::new(size);
            let mut x: u64 = seed;
            for step in 0..3000 {
                x = x.wrapping_mul(6364136223846793005).wrapping_add(1442695040888963407);
                let k = format!("{:04}", (x >> 33) % 400);
                if step % 5 >= 3 {
                    btree.remove(&k);
                } else if btree.get(&k).is_none() {
                    btree.insert(k, step.to_string());
                }
                let m = max_separators(btree.root());
                assert!(m <= bound, "size {} seed {} step {}", size, seed, step);
                seen = seen.max(m);
            }
        }
        assert_eq!(seen, bound, "size {}", size);
    }
}

fn leaf_keys(n: &Node) -> Vec<String> {
    match n {
        Node::Leaf(l) => l.items.iter().map(|it| it.key.clone()).collect(),
        Node::Index(_) => panic!("expected a leaf"),
    }
}

/// An emptied first leaf takes the first item of its right sibling, and the
/// separator becomes the sibling's new first key.
#[test]
fn remove_borrows_from_right_sibling() {
    let mut t = BPlusTree::new(2);
    for k in ["1", "2", "3", "4"] {
        t.insert(k.to_string(), format!("v {}", k));
    }
    assert_eq!(t.remove("1"), Some(String::new()));
    match t.root() {
        Node::Index(ix) => {
            assert_eq!(ix.keys, vec!["3".to_string()]);
            assert_eq!(leaf_keys(&ix.nodes[0]), vec!["2"]);
            assert_eq!(leaf_keys(&ix.nodes[1]), vec!["3", "4"]);
        }
        Node::Leaf(_) => panic!("root should be an index page"),
    }
    assert_eq!(t.remove("2"), Some(String::new()));
    match t.root() {
        Node::Index(ix) => {
            assert_eq!(ix.keys, vec!["4".to_string()]);
            assert_eq!(leaf_keys(&ix.nodes[0]), vec!["3"]);
            assert_eq!(leaf_keys(&ix.nodes[1]), vec!["4"]);
        }
        Node::Leaf(_) => panic!("root should be an index page"),
    }
    assert_eq!(t.get("3"), Some("v 3".to_string()));
    assert_eq!(t.get("4"), Some("v 4".to_string()));
    assert_eq!(t.get("2"), None);
}

/// A leaf that falls below half, with no sibling to spare, merges with its
/// left sibling, and a root left with one child gives way to it.
#[test]
fn remove_merges_and_collapses_root() {
    let mut t = BPlusTree::new(2);
    for k in ["1", "2", "3"] {
        t.insert(k.to_string(), k.to_string());
    }
    // root "3" over [1, 2] and [3]
    assert_eq!(t.remove("3"), Some(String::new()));
    // [3] empties; its left sibling has 2 > 1 items and lends "2"
    match t.root() {
        Node::Index(ix) => {
            assert_eq!(ix.keys, vec!["2".to_string()]);
            assert_eq!(leaf_keys(&ix.nodes[0]), vec!["1"]);
            assert_eq!(leaf_keys(&ix.nodes[1]), vec!["2"]);
        }
        Node::Leaf(_) => panic!("root should be an index page"),
    }
    assert_eq!(t.remove("2"), Some(String::new()));
    // [2] empties; [1] has nothing to spare: they merge and the root collapses
    assert_eq!(leaf_keys(t.root()), vec!["1"]);
}

/// The first insertion leaves the tree a single root leaf.
#[test]
fn first_insert_keeps_one_root_leaf() {
    for size in 2..5 {
        let mut t = BPlusTree::new(size);
        t.insert("k".to_string(), "v".to_string());
        assert_eq!(leaf_keys(t.root()), vec!["k"]);
    }
}

/// An index page that splits hands its middle separator up, and the new
/// root holds just that separator over the two halves.
#[test]
fn index_split_hands_up_middle_separator() {
    let mut t = BPlusTree::new(2);
    for k in ["1", "2", "3", "4", "5", "6", "7"] {
        t.insert(k.to_string(), k.to_string());
    }
    // leaves [1,2] [3,4] [5,6,7] would need a third separator: the root split
    match t.root() {
        Node::Index(ix) => {
            assert_eq!(ix.keys.len(), 1);
            assert_eq!(ix.nodes.len(), 2);
            for c in ix.nodes.iter() {
                match c {
                    Node::Index(c) => assert!(c.keys.len() <= 2 && c.keys.len() >= 1),
                    Node::Leaf(_) => panic!("expected index pages below the root"),
                }
            }
        }
        Node::Leaf(_) => panic!("root should be an index page"),
    }
    for k in ["1", "2", "3", "4", "5", "6", "7"] {
        assert_eq!(t.get(k), Some(k.to_string()));
    }
}
