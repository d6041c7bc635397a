use vstd::bytes::*;
use vstd::prelude::*;
use vstd::slice::*;

verus! {

/// Number of bytes of an encoded header: flag, content size, identifier.
pub const HEADER_SIZE: usize = 17;

/// Fixed-width prefix of each stored record.
#[derive(Debug)]
pub struct RecordHeader {
    pub is_active: bool,
    pub content_size: u64,
    pub id: u64,
}

/// The encoded form of a header: 1 flag byte, then the content size and the
/// identifier, each as 8 little-endian bytes.
pub open spec fn header_bytes(is_active: bool, content_size: u64, id: u64) -> Seq<u8> {
    seq![if is_active { 1u8 } else { 0u8 }] + spec_u64_to_le_bytes(content_size)
        + spec_u64_to_le_bytes(id)
}

impl RecordHeader {
    pub open spec fn spec_bytes(&self) -> Seq<u8> {
        header_bytes(self.is_active, self.content_size, self.id)
    }

    /// What a header decodes to from the first `HEADER_SIZE` bytes of `b`.
    pub open spec fn spec_from_bytes(b: Seq<u8>) -> RecordHeader {
        RecordHeader {
            is_active: b[0] != 0,
            content_size: spec_u64_from_le_bytes(b.subrange(1, 9)),
            id: spec_u64_from_le_bytes(b.subrange(9, 17)),
        }
    }

    pub fn new(content_size: u64, id: u64) -> (r: Self)
        ensures
            r.is_active,
            r.content_size == content_size,
            r.id == id,
    {
        RecordHeader { is_active: true, content_size, id }
    }

    pub fn from_bytes(bytes: &[u8]) -> (r: Self)
        requires
            bytes@.len() >= HEADER_SIZE,
        ensures
            r == Self::spec_from_bytes(bytes@),
    {
        let is_active = bytes[0] != 0;
        let content_size = u64_from_le_bytes(slice_subrange(bytes, 1, 9));
        let id = u64_from_le_bytes(slice_subrange(bytes, 9, 17));
        RecordHeader { is_active, content_size, id }
    }

    pub fn to_bytes(&self) -> (r: Vec<u8>)
        ensures
            r@ == self.spec_bytes(),
            r@.len() == HEADER_SIZE,
    {
        proof {
            lemma_auto_spec_u64_to_from_le_bytes();
        }
        let mut buffer: Vec<u8> = Vec::with_capacity(HEADER_SIZE);
        buffer.push(if self.is_active { 1u8 } else { 0u8 });
        let mut size = u64_to_le_bytes(self.content_size);
        buffer.append(&mut size);
        let mut id = u64_to_le_bytes(self.id);
        buffer.append(&mut id);
        buffer
    }

    pub fn get_content_size(&self) -> (r: u64)
        ensures
            r == self.content_size,
    {
        self.content_size
    }

    pub fn get_id(&self) -> (r: u64)
        ensures
            r == self.id,
    {
        self.id
    }

    pub fn size() -> (r: usize)
        ensures
            r == HEADER_SIZE,
    {
        HEADER_SIZE
    }
}

/// Decoding the encoded form of a header gives the header back, and any
/// bytes that follow do not change it.
pub proof fn lemma_header_round_trip(h: RecordHeader, rest: Seq<u8>)
    ensures
        (h.spec_bytes() + rest).len() == HEADER_SIZE + rest.len(),
        RecordHeader::spec_from_bytes(h.spec_bytes() + rest) == h,
{
    lemma_auto_spec_u64_to_from_le_bytes();
    let b = h.spec_bytes() + rest;
    assert(b.subrange(1, 9) =~= spec_u64_to_le_bytes(h.content_size));
    assert(b.subrange(9, 17) =~= spec_u64_to_le_bytes(h.id));
}

} // verus!
