//! The length that leads an index file, in bincode's encoding of a `usize`:
//! eight bytes, least significant first.
use vstd::prelude::*;

verus! {

/// bincode's error.
#[verifier::external_type_specification]
#[verifier::external_body]
pub struct ExBincodeErrorKind(bincode::ErrorKind);

/// The eight bytes of `n`, least significant first.
pub open spec fn le_bytes(n: u64) -> Seq<u8> {
    seq![
        (n & 0xff) as u8,
        ((n >> 8u64) & 0xff) as u8,
        ((n >> 16u64) & 0xff) as u8,
        ((n >> 24u64) & 0xff) as u8,
        ((n >> 32u64) & 0xff) as u8,
        ((n >> 40u64) & 0xff) as u8,
        ((n >> 48u64) & 0xff) as u8,
        ((n >> 56u64) & 0xff) as u8,
    ]
}

/// The number whose eight bytes, least significant first, are the first eight of `b`.
pub open spec fn le_value(b: Seq<u8>) -> u64 {
    le_value8(b[0], b[1], b[2], b[3], b[4], b[5], b[6], b[7])
}

pub open spec fn le_value8(b0: u8, b1: u8, b2: u8, b3: u8, b4: u8, b5: u8, b6: u8, b7: u8) -> u64 {
    (b0 as u64) | ((b1 as u64) << 8u64) | ((b2 as u64) << 16u64) | ((b3 as u64) << 24u64)
        | ((b4 as u64) << 32u64) | ((b5 as u64) << 40u64) | ((b6 as u64) << 48u64) | ((b7 as u64) << 56u64)
}

/// Reading back the eight bytes of a number gives the number.
pub proof fn lemma_le_roundtrip(n: u64)
    ensures
        le_value(le_bytes(n)) == n,
{
    let b = le_bytes(n);
    assert(le_value8(
        (n & 0xff) as u8,
        ((n >> 8u64) & 0xff) as u8,
        ((n >> 16u64) & 0xff) as u8,
        ((n >> 24u64) & 0xff) as u8,
        ((n >> 32u64) & 0xff) as u8,
        ((n >> 40u64) & 0xff) as u8,
        ((n >> 48u64) & 0xff) as u8,
        ((n >> 56u64) & 0xff) as u8,
    ) == n) by (bit_vector);
}

/// `bincode::serialize` of a `usize`. bincode's functions encode integers at
/// fixed width, least significant byte first, and serde hands a `usize` to
/// bincode as a `u64`; writing into a `Vec` with no size limit cannot fail.
#[verifier::external_body]
fn serialize_usize(n: usize) -> (encoded: bincode::Result<Vec<u8>>)
    ensures
        encoded is Ok,
        encoded->Ok_0@ == le_bytes(n as u64),
{
    bincode::serialize(&n)
}

/// `bincode::deserialize` of a `usize` from `bytes`. bincode reads eight
/// bytes, least significant first, failing where fewer are left and
/// allowing more; serde fails where the number does not fit a `usize`.
#[verifier::external_body]
fn deserialize_usize(bytes: &[u8]) -> (decoded: bincode::Result<usize>)
    ensures
        decoded is Ok == (bytes@.len() >= 8 && le_value(bytes@) <= usize::MAX),
        decoded is Ok ==> decoded->Ok_0 == le_value(bytes@),
{
    bincode::deserialize(bytes)
}

/// An encoded header led by its length, as an index file begins.
pub fn frame_header(header: Vec<u8>) -> (r: Vec<u8>)
    ensures
        r@ == le_bytes(header@.len() as u64) + header@,
{
    let mut header = header;
    match serialize_usize(header.len()) {
        Ok(mut framed) => {
            framed.append(&mut header);
            framed
        },
        Err(_) => {
            assert(false);
            Vec::new()
        },
    }
}

/// The length that leads `prefix`, where its first eight bytes hold one that fits a `usize`.
pub fn header_len(prefix: &[u8]) -> (r: Option<usize>)
    ensures
        r is Some <==> prefix@.len() >= 8 && le_value(prefix@) <= usize::MAX,
        r matches Some(n) ==> n == le_value(prefix@),
{
    match deserialize_usize(prefix) {
        Ok(n) => Some(n),
        Err(_) => None,
    }
}

/// What leads a framed header reads back as the header's length, and the
/// header follows it.
pub proof fn lemma_frame_roundtrip(header: Seq<u8>)
    requires
        header.len() <= usize::MAX,
    ensures
        le_value(le_bytes(header.len() as u64) + header) == header.len(),
        (le_bytes(header.len() as u64) + header).subrange(8, 8 + header.len() as int) == header,
{
    let f = le_bytes(header.len() as u64) + header;
    lemma_le_roundtrip(header.len() as u64);
    assert(f.subrange(0, 8) =~= le_bytes(header.len() as u64));
    assert(forall|i: int| 0 <= i < 8 ==> f[i] == le_bytes(header.len() as u64)[i]);
    assert(f.subrange(8, 8 + header.len() as int) =~= header);
}

} // verus!
