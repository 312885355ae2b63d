use bplus_tree::file::kv::codec::{frame_header, header_len};
use bplus_tree::file::kv::fileopt::{leaf_item_position, split_leaf_page, Take};
use bplus_tree::file::kv::insert::{binary_find, insert_succeeded, leaf_insert_position, InsertAction, InsertCode, InsertEvent, InsertState, Populate};
use bplus_tree::file::kv::node::{LeafItem, LeafNode, LeafPageHeader, Node, NodePos};
use bplus_tree::file::kv::{CreateOption, FileHeader, FileIndex};

#[test]
fn file_paths() {
    assert_eq!(FileIndex::getIndexFilePath("test"), "test.idx");
    assert_eq!(FileIndex::getDataFilePath("test"), "test.data");
    assert_eq!(FileIndex::getIndexFilePath(""), ".idx");
}

#[test]
fn header_for_create() {
    let _index = FileIndex::new();
    let h = FileHeader::for_create(&CreateOption { keyMax: 64, pageSize: 64 * 1024 });
    assert_eq!(h.keyMax, 64);
    assert_eq!(h.size, 1024);
    assert_eq!(h.root, Node::Leaf(NodePos { startPos: 0, endPos: 0 }));
    assert_eq!(h.firstLeaf, NodePos { startPos: 0, endPos: 0 });
    let h = FileHeader::for_create(&CreateOption { keyMax: 3, pageSize: 10 });
    assert_eq!(h.size, 3);
}

#[test]
fn frame_leads_with_length() {
    let framed = frame_header(vec![7, 8, 9]);
    assert_eq!(framed, vec![3, 0, 0, 0, 0, 0, 0, 0, 7, 8, 9]);
    let long: Vec<u8> = vec![1; 300];
    let framed = frame_header(long.clone());
    assert_eq!(&framed[0..8], &[44, 1, 0, 0, 0, 0, 0, 0]);
    assert_eq!(&framed[8..], &long[..]);
    assert_eq!(frame_header(Vec::new()), vec![0; 8]);
}

#[test]
fn header_len_reads_frame() {
    let framed = frame_header(vec![1, 2, 3, 4, 5]);
    assert_eq!(header_len(&framed), Some(5));
    assert_eq!(header_len(&[1, 2, 0, 0, 0, 0, 0, 0]), Some(513));
    assert_eq!(header_len(&[1, 2, 3]), None);
    assert_eq!(header_len(&[]), None);
}

#[test]
fn defaults_are_zero() {
    assert_eq!(NodePos::default(), NodePos { startPos: 0, endPos: 0 });
    let h = LeafPageHeader::default();
    assert_eq!(h.pre, NodePos::default());
    assert_eq!(h.next, NodePos::default());
    assert_eq!(h.delNext, NodePos::default());
    assert_eq!(Node::default(), Node::Leaf(NodePos::default()));
}

#[test]
fn span_and_item_position() {
    assert_eq!(NodePos::span(100, 24), NodePos { startPos: 100, endPos: 124 });
    assert_eq!(leaf_item_position(1000, 48, 3, 24), 1000 + 48 + 8 + 72);
    assert_eq!(leaf_item_position(0, 0, 0, 24), 8);
}

#[test]
fn blank_page_and_set() {
    let mut leaf = LeafNode::blank(4, 5);
    assert_eq!(leaf.items.len(), 4);
    for it in leaf.items.iter() {
        assert_eq!(it.key, vec![0; 5]);
        assert_eq!(it.value, NodePos::default());
    }
    leaf.set(b"ab", NodePos { startPos: 1, endPos: 2 }, 2, 5);
    assert_eq!(leaf.items[2].key, vec![b'a', b'b', 0, 0, 0]);
    assert_eq!(leaf.items[2].value, NodePos { startPos: 1, endPos: 2 });
    leaf.set(b"abcdefg", NodePos { startPos: 3, endPos: 4 }, 0, 5);
    assert_eq!(leaf.items[0].key, b"abcde".to_vec());
    assert_eq!(leaf.items[1].key, vec![0; 5]);
    let empty = LeafNode::blank(0, 8);
    assert!(empty.items.is_empty());
}

fn items(keys: &[&str]) -> Vec<LeafItem> {
    keys.iter()
        .enumerate()
        .map(|(i, k)| LeafItem { key: k.as_bytes().to_vec(), value: NodePos { startPos: i, endPos: i + 1 } })
        .collect()
}

#[test]
fn insert_position_after_equal_keys() {
    let it = items(&["a", "c", "c", "e"]);
    assert_eq!(leaf_insert_position(&it, b"0"), 0);
    assert_eq!(leaf_insert_position(&it, b"b"), 1);
    assert_eq!(leaf_insert_position(&it, b"c"), 3);
    assert_eq!(leaf_insert_position(&it, b"z"), 4);
    assert_eq!(leaf_insert_position(&[], b"z"), 0);
}

#[test]
fn binary_find_leaf_items() {
    let it = items(&["a", "b", "d", "f", "g"]);
    assert_eq!(binary_find(b"d", &it).unwrap().value, NodePos { startPos: 2, endPos: 3 });
    assert_eq!(binary_find(b"a", &it).unwrap().value, NodePos { startPos: 0, endPos: 1 });
    assert_eq!(binary_find(b"g", &it).unwrap().value, NodePos { startPos: 4, endPos: 5 });
    assert!(binary_find(b"c", &it).is_none());
    assert!(binary_find(b"h", &it).is_none());
    assert!(binary_find(b"a", &[]).is_none());
}

#[test]
fn plain_records() {
    let t = Take { content: vec![1, 2], nextPos: 2 };
    assert_eq!(t.content.len(), t.nextPos);
    assert!(matches!(InsertCode::NotPop, InsertCode::NotPop));
}

#[test]
fn split_leaf_page_cuts_header_and_slots() {
    // a 3-byte header, a count of 2, two slots of 4 bytes, one byte left over
    let mut page = vec![9, 9, 9, 2, 0, 0, 0, 0, 0, 0, 0];
    page.extend_from_slice(&[1, 2, 3, 4, 5, 6, 7, 8, 42]);
    let (header, slots) = split_leaf_page(&page, 3, 4).expect("page fits");
    assert_eq!(header, vec![9, 9, 9]);
    assert_eq!(slots, vec![vec![1, 2, 3, 4], vec![5, 6, 7, 8]]);
    // no items recorded
    let (header, slots) = split_leaf_page(&[1, 0, 0, 0, 0, 0, 0, 0, 0], 1, 24).expect("page fits");
    assert_eq!(header, vec![1]);
    assert!(slots.is_empty());
}

#[test]
fn split_leaf_page_refuses_short_pages() {
    // shorter than the header
    assert!(split_leaf_page(&[1, 2], 3, 4).is_none());
    // no room for the count
    assert!(split_leaf_page(&[1, 2, 3, 0, 0], 3, 4).is_none());
    // the count asks for more slots than there are bytes
    let page = vec![9, 3, 0, 0, 0, 0, 0, 0, 0, 1, 2, 3, 4, 5, 6, 7, 8];
    assert!(split_leaf_page(&page, 1, 4).is_none());
}

fn test_header(root: Node, size: usize) -> FileHeader {
    FileHeader { keyMax: 3, size, root, firstLeaf: NodePos::default() }
}

#[test]
fn insert_step_index_root_does_nothing() {
    let mut h = test_header(Node::Index(NodePos { startPos: 4, endPos: 8 }), 2);
    let (state, action) = InsertState::Begin.step(&mut h, b"k", InsertEvent::Started);
    assert!(matches!(state, InsertState::Done));
    assert!(matches!(action, InsertAction::Finish(Err(InsertCode::NotPop))));
    assert_eq!(h.root, Node::Index(NodePos { startPos: 4, endPos: 8 }));
}

#[test]
fn insert_step_first_insertion_makes_root_page() {
    let mut h = test_header(Node::Leaf(NodePos::default()), 2);
    let (state, action) = InsertState::Begin.step(&mut h, b"k", InsertEvent::Started);
    assert!(matches!(action, InsertAction::ReadPage(NodePos { startPos: 0, endPos: 0 })));
    let (state, action) = state.step(&mut h, b"k", InsertEvent::PageRead(None));
    assert!(matches!(action, InsertAction::WriteValue));
    let (state, action) = state.step(&mut h, b"k", InsertEvent::ValueWritten(Some(NodePos { startPos: 0, endPos: 5 })));
    match action {
        InsertAction::WritePage(page) => {
            assert_eq!(page.items.len(), 2);
            assert_eq!(page.items[0].key, vec![b'k', 0, 0]);
            assert_eq!(page.items[0].value, NodePos { startPos: 0, endPos: 5 });
            assert_eq!(page.items[1].key, vec![0, 0, 0]);
        }
        _ => panic!("expected a page to write"),
    }
    let (state, action) = state.step(&mut h, b"k", InsertEvent::PageWritten(Some(NodePos { startPos: 60, endPos: 120 })));
    assert!(matches!(action, InsertAction::WriteHeader));
    assert_eq!(h.root, Node::Leaf(NodePos { startPos: 60, endPos: 120 }));
    let (state, action) = state.step(&mut h, b"k", InsertEvent::HeaderWritten(true));
    assert!(matches!(state, InsertState::Done));
    assert!(matches!(action, InsertAction::Finish(Err(InsertCode::NotPop))));
}

fn sorted_page() -> LeafNode {
    let mut page = LeafNode::blank(3, 3);
    page.set(b"m", NodePos { startPos: 0, endPos: 1 }, 0, 3);
    page.set(b"z", NodePos { startPos: 1, endPos: 2 }, 1, 3);
    page.set(b"zz", NodePos { startPos: 2, endPos: 3 }, 2, 3);
    page
}

#[test]
fn insert_step_inserts_into_read_page_and_writes_it_back() {
    let at = NodePos { startPos: 60, endPos: 120 };
    let mut h = test_header(Node::Leaf(at), 3);
    let (state, action) = InsertState::Begin.step(&mut h, b"q", InsertEvent::Started);
    assert!(matches!(action, InsertAction::ReadPage(NodePos { startPos: 60, endPos: 120 })));
    let (state, action) = state.step(&mut h, b"q", InsertEvent::PageRead(Some(sorted_page())));
    assert!(matches!(action, InsertAction::WriteValue));
    assert!(matches!(state, InsertState::RootRead { pos: 1, .. }));
    let (state, action) = state.step(&mut h, b"q", InsertEvent::ValueWritten(Some(NodePos { startPos: 7, endPos: 9 })));
    assert!(matches!(state, InsertState::AwaitPageWrite));
    match action {
        InsertAction::RewritePage(pos, p) => {
            assert_eq!(pos, at);
            assert_eq!(p.items.len(), 4);
            assert_eq!(p.items[0].key, vec![b'm', 0, 0]);
            assert_eq!(p.items[1].key, vec![b'q', 0, 0]);
            assert_eq!(p.items[1].value, NodePos { startPos: 7, endPos: 9 });
            assert_eq!(p.items[2].key, vec![b'z', 0, 0]);
            assert_eq!(p.items[3].key, vec![b'z', b'z', 0]);
        }
        _ => panic!("expected the page to be written back"),
    }
    let (state, action) = state.step(&mut h, b"q", InsertEvent::PageWritten(Some(NodePos { startPos: 60, endPos: 150 })));
    assert!(matches!(action, InsertAction::WriteHeader));
    assert_eq!(h.root, Node::Leaf(NodePos { startPos: 60, endPos: 150 }));
    let (_, action) = state.step(&mut h, b"q", InsertEvent::HeaderWritten(true));
    assert!(matches!(action, InsertAction::Finish(Err(InsertCode::NotPop))));
}

#[test]
fn insert_step_appends_after_the_last_item() {
    let at = NodePos { startPos: 60, endPos: 120 };
    let mut h = test_header(Node::Leaf(at), 3);
    let (state, _) = InsertState::Begin.step(&mut h, b"zzz", InsertEvent::Started);
    let (state, _) = state.step(&mut h, b"zzz", InsertEvent::PageRead(Some(sorted_page())));
    assert!(matches!(state, InsertState::RootRead { pos: 3, .. }));
    let (_, action) = state.step(&mut h, b"zzz", InsertEvent::ValueWritten(Some(NodePos::default())));
    match action {
        InsertAction::RewritePage(_, p) => {
            assert_eq!(p.items.len(), 4);
            assert_eq!(p.items[3].key, b"zzz".to_vec());
        }
        _ => panic!("expected the page to be written back"),
    }
}

#[test]
fn insert_step_errors() {
    let mut h = test_header(Node::Leaf(NodePos { startPos: 60, endPos: 120 }), 1);
    // the data file fails
    let (state, _) = InsertState::Begin.step(&mut h, b"k", InsertEvent::Started);
    let (state, _) = state.step(&mut h, b"k", InsertEvent::PageRead(None));
    let (_, action) = state.step(&mut h, b"k", InsertEvent::ValueWritten(None));
    assert!(matches!(action, InsertAction::Finish(Err(InsertCode::Error))));
    // the page cannot be written back
    let (state, _) = InsertState::Begin.step(&mut h, b"k", InsertEvent::Started);
    let (state, _) = state.step(&mut h, b"k", InsertEvent::PageRead(Some(LeafNode::blank(1, 3))));
    let (state, _) = state.step(&mut h, b"k", InsertEvent::ValueWritten(Some(NodePos::default())));
    let (_, action) = state.step(&mut h, b"k", InsertEvent::PageWritten(None));
    assert!(matches!(action, InsertAction::Finish(Err(InsertCode::Error))));
    assert_eq!(h.root, Node::Leaf(NodePos { startPos: 60, endPos: 120 }));
    // a slot past the page
    let state = InsertState::RootRead { leaf: LeafNode::blank(1, 3), pos: 2, at: NodePos::default() };
    let (_, action) = state.step(&mut h, b"k", InsertEvent::ValueWritten(Some(NodePos::default())));
    assert!(matches!(action, InsertAction::Finish(Err(InsertCode::Error))));
    // a page of no slots
    let mut h0 = test_header(Node::Leaf(NodePos::default()), 0);
    let (state, _) = InsertState::Begin.step(&mut h0, b"k", InsertEvent::Started);
    let (state, _) = state.step(&mut h0, b"k", InsertEvent::PageRead(None));
    let (_, action) = state.step(&mut h0, b"k", InsertEvent::ValueWritten(Some(NodePos::default())));
    assert!(matches!(action, InsertAction::Finish(Err(InsertCode::Error))));
    // the header cannot be written
    let (_, action) = InsertState::AwaitHeader.step(&mut h0, b"k", InsertEvent::HeaderWritten(false));
    assert!(matches!(action, InsertAction::Finish(Err(InsertCode::Error))));
    // an answer that does not fit the state
    let (_, action) = InsertState::Begin.step(&mut h0, b"k", InsertEvent::HeaderWritten(true));
    assert!(matches!(action, InsertAction::Finish(Err(InsertCode::Error))));
    assert_eq!(h0.root, Node::Leaf(NodePos::default()));
}

#[test]
fn item_position_is_where_split_leaf_page_cuts() {
    // header of 3 bytes, a count of 2, slots of 4 bytes
    let mut page = vec![9, 9, 9, 2, 0, 0, 0, 0, 0, 0, 0];
    page.extend_from_slice(&[1, 2, 3, 4, 5, 6, 7, 8]);
    let (_, slots) = split_leaf_page(&page, 3, 4).expect("page fits");
    for i in 0..2 {
        let at = leaf_item_position(0, 3, i, 4);
        assert_eq!(&page[at..at + 4], slots[i].as_slice());
    }
}

#[test]
fn insert_succeeds_only_on_a_split() {
    assert!(!insert_succeeded(&Err(InsertCode::NotPop)));
    assert!(!insert_succeeded(&Err(InsertCode::Error)));
    let split = Populate { newKey: "k".to_string(), newLeftNode: NodePos::default(), newRightNode: NodePos::default() };
    assert!(insert_succeeded(&Ok(split)));
}
