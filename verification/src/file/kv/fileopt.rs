//! Where things lie in the files of an index.
use vstd::prelude::*;
use vstd::slice::{slice_subrange, slice_to_vec};
use crate::file::kv::codec::le_value;

verus! {

/// Bytes read from a file, and how many were read.
pub struct Take {
    pub content: Vec<u8>,
    pub nextPos: usize,
}

/// Where the `pos`-th item slot of a leaf page lies in the index file: after
/// the page's start, its header and the eight bytes that count its items,
/// `pos` slots of `item_len` bytes in; where `split_leaf_page` cuts that slot.
pub fn leaf_item_position(leaf_page_start: usize, leaf_page_header_len: usize, pos: usize, item_len: usize) -> (r: usize)
    requires
        leaf_page_start + item_start(leaf_page_header_len as nat, pos as int, item_len as nat) <= usize::MAX,
    ensures
        r == leaf_page_start + item_start(leaf_page_header_len as nat, pos as int, item_len as nat),
        r == leaf_page_start + leaf_page_header_len + 8 + pos * item_len,
{
    proof {
        assert(0 <= pos * item_len) by (nonlinear_arith);
    }
    leaf_page_start + leaf_page_header_len + 8 + pos * item_len
}

/// The number of items that a leaf page records in the eight bytes after
/// its header of `header_len` bytes.
pub open spec fn recorded_items(content: Seq<u8>, header_len: nat) -> int {
    le_value(content.subrange(header_len as int, content.len() as int)) as int
}

/// Where the `i`-th item slot of a leaf page starts: after the header and
/// the eight bytes that count the items, `i` slots of `item_len` bytes in.
pub open spec fn item_start(header_len: nat, i: int, item_len: nat) -> int {
    header_len + 8 + i * item_len
}

/// The page holds its header, the count of its items, and that many slots.
pub open spec fn leaf_page_fits(content: Seq<u8>, header_len: nat, item_len: nat) -> bool {
    &&& header_len + 8 <= content.len()
    &&& recorded_items(content, header_len) <= usize::MAX
    &&& item_start(header_len, recorded_items(content, header_len), item_len) <= content.len()
}

/// Cuts the bytes of a leaf page into its header, the first `header_len`
/// bytes, and the slots of its items, as many as the page records after its
/// header, each `item_len` bytes long; `None` where the page is too short
/// for them.
pub fn split_leaf_page(content: &[u8], header_len: usize, item_len: usize) -> (r: Option<(Vec<u8>, Vec<Vec<u8>>)>)
    ensures
        r is Some <==> leaf_page_fits(content@, header_len as nat, item_len as nat),
        r matches Some((h, items)) ==> {
            &&& h@ == content@.subrange(0, header_len as int)
            &&& items@.len() == recorded_items(content@, header_len as nat)
            &&& forall|i: int| #![trigger items@[i]] 0 <= i < items@.len() ==> items@[i]@ == content@.subrange(
                item_start(header_len as nat, i, item_len as nat),
                item_start(header_len as nat, i, item_len as nat) + item_len,
            )
        },
{
    let ghost c = content@;
    let ghost hl = header_len as nat;
    let ghost il = item_len as nat;
    if content.len() < header_len {
        return None;
    }
    let count = match crate::file::kv::codec::header_len(slice_subrange(content, header_len, content.len())) {
        Some(n) => n,
        None => return None,
    };
    let header = slice_to_vec(slice_subrange(content, 0, header_len));
    let mut items: Vec<Vec<u8>> = Vec::new();
    let mut start: usize = header_len + 8;
    let mut i: usize = 0;
    proof {
        assert(item_start(hl, 0, il) == header_len + 8);
    }
    while i < count
        invariant
            c == content@,
            hl == header_len,
            il == item_len,
            header_len + 8 <= c.len(),
            count == recorded_items(c, hl),
            i <= count,
            start == item_start(hl, i as int, il),
            start <= c.len(),
            items@.len() == i,
            forall|j: int| #![trigger items@[j]] 0 <= j < i ==> items@[j]@ == c.subrange(
                item_start(hl, j, il),
                item_start(hl, j, il) + il,
            ),
        decreases count - i,
    {
        proof {
            assert((i + 1) * il == i * il + il) by (nonlinear_arith);
        }
        if content.len() - start < item_len {
            proof {
                assert((i + 1) * il <= count * il) by (nonlinear_arith)
                    requires
                        i + 1 <= count;
            }
            return None;
        }
        let slot = slice_to_vec(slice_subrange(content, start, start + item_len));
        items.push(slot);
        start = start + item_len;
        i = i + 1;
    }
    Some((header, items))
}

} // verus!
