//! A B+ tree index kept in a pair of files: `<name>.idx` holds the header and
//! the pages, `<name>.data` the values.
pub mod node;
pub mod codec;
pub mod fileopt;
pub mod insert;

use vstd::prelude::*;
use crate::file::kv::node::{Node, NodePos};

verus! {

/// The header at the start of an index file.
#[derive(Debug)]
pub struct FileHeader {
    /// The largest length of a key.
    pub keyMax: usize,
    /// The number of item slots of a leaf page.
    pub size: usize,
    /// Where the root page lies.
    pub root: Node,
    /// Where the first leaf page lies.
    pub firstLeaf: NodePos,
}

/// Creates and opens file indexes.
pub struct FileIndex {}

/// The properties of a new index.
pub struct CreateOption {
    /// The largest length of a key.
    pub keyMax: usize,
    /// The size of a page, in bytes of keys.
    pub pageSize: usize,
}

impl FileIndex {
    pub fn new() -> Self {
        Self {}
    }

    /// The index file of the index `name`.
    pub fn getIndexFilePath(name: &str) -> (r: String)
        ensures
            r@ == name@ + ".idx"@,
    {
        let mut index_file = String::from_str(name);
        index_file.append(".idx");
        index_file
    }

    /// The data file of the index `name`.
    pub fn getDataFilePath(name: &str) -> (r: String)
        ensures
            r@ == name@ + ".data"@,
    {
        let mut index_file = String::from_str(name);
        index_file.append(".data");
        index_file
    }
}

impl FileHeader {
    /// The header of a new index: leaf pages of `pageSize / keyMax` slots,
    /// the root an empty leaf at position zero.
    pub fn for_create(opt: &CreateOption) -> (r: FileHeader)
        requires
            opt.keyMax > 0,
        ensures
            r.keyMax == opt.keyMax,
            r.size == opt.pageSize / opt.keyMax,
            r.root == Node::Leaf(NodePos { startPos: 0, endPos: 0 }),
            r.firstLeaf == (NodePos { startPos: 0, endPos: 0 }),
    {
        FileHeader {
            keyMax: opt.keyMax,
            size: opt.pageSize / opt.keyMax,
            root: Node::default(),
            firstLeaf: NodePos::default(),
        }
    }
}

} // verus!
